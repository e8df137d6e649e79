//! The preview mesh, cut into chunks.
//!
//! One large relief would not fit a single GPU buffer, so the surface is emitted
//! as tiles, each small enough to be one. Tiles duplicate the vertices along
//! their shared edges but never a cell, so the surface is covered exactly once.
//! Normals come from the height field, so the duplicated vertices get identical
//! normals and the seams are invisible.

use vstd::prelude::*;
use vstd::arithmetic::power2;
use crate::depth::HeightField;
use crate::full;
use crate::grid;
use crate::mesh::{Block, Solid};
use crate::number;
use crate::number::{Op, Real, ONE, TWO, ZERO};
use crate::progress::Fraction;
use crate::vector;
use crate::vector::Vector;

verus! {

/// Vertices per tile: 512 by 512.
pub const DEFAULT_MAX_TILE_VERTS: usize = 262_144;

/// A rectangular block of the surface grid, inclusive in both axes.
#[derive(Debug, Clone, Copy, PartialEq, Eq, Structural)]
pub struct TileRect {
    pub x0: usize,
    pub y0: usize,
    pub x1: usize,
    pub y1: usize,
}

impl TileRect {
    pub open spec fn wf(self) -> bool {
        &&& self.x0 <= self.x1
        &&& self.y0 <= self.y1
        &&& (self.x1 - self.x0 + 1) * (self.y1 - self.y0 + 1) <= usize::MAX
        &&& 2 * ((self.x1 - self.x0) * (self.y1 - self.y0)) <= usize::MAX
    }

    pub open spec fn across(self) -> int {
        self.x1 - self.x0 + 1
    }

    pub open spec fn down(self) -> int {
        self.y1 - self.y0 + 1
    }

    pub fn width(&self) -> (r: usize)
        requires
            self.x0 <= self.x1,
            self.x1 - self.x0 < usize::MAX,
        ensures
            r == self.across(),
    {
        self.x1 - self.x0 + 1
    }

    pub fn height(&self) -> (r: usize)
        requires
            self.y0 <= self.y1,
            self.y1 - self.y0 < usize::MAX,
        ensures
            r == self.down(),
    {
        self.y1 - self.y0 + 1
    }

    pub fn vertices(&self) -> (r: usize)
        requires
            self.wf(),
        ensures
            r == self.across() * self.down(),
    {
        proof {
            self.lemma_sides();
        }
        self.width() * self.height()
    }

    pub fn triangles(&self) -> (r: usize)
        requires
            self.wf(),
        ensures
            r == 2 * ((self.across() - 1) * (self.down() - 1)),
    {
        proof {
            self.lemma_sides();
            assert(0 <= (self.x1 - self.x0) * (self.y1 - self.y0)) by (nonlinear_arith)
                requires
                    self.x0 <= self.x1,
                    self.y0 <= self.y1,
            ;
        }
        2 * ((self.width() - 1) * (self.height() - 1))
    }

    proof fn lemma_sides(self)
        requires
            self.wf(),
        ensures
            1 <= self.across() <= usize::MAX,
            1 <= self.down() <= usize::MAX,
    {
        let a = self.across();
        let b = self.down();
        assert(a <= a * b && b <= a * b) by (nonlinear_arith)
            requires
                a >= 1,
                b >= 1,
        ;
    }
}

// ---------------------------------------------------------------------------
// Cutting the grid
// ---------------------------------------------------------------------------

/// `r` is the whole part of the square root of `n`.
pub open spec fn is_root(r: int, n: int) -> bool {
    0 <= r && r * r <= n && n < (r + 1) * (r + 1)
}

fn whole_root(n: usize) -> (r: usize)
    ensures
        is_root(r as int, n as int),
{
    let big: u128 = n as u128;
    let mut r: u64 = 0;
    let mut k: u32 = 32;
    proof {
        vstd::arithmetic::power2::lemma2_to64();
        assert(0 * 0 == 0);
        assert(0x1_0000_0000 * 0x1_0000_0000 == 0x1_0000_0000_0000_0000);
    }
    while k > 0
        invariant
            k <= 32,
            big == n,
            r * r <= n,
            n < (r + power2::pow2(k as nat)) * (r + power2::pow2(k as nat)),
            r <= 0x1_0000_0000,
        decreases k,
    {
        k = k - 1;
        let step: u64 = number::power(k);
        proof {
            power2::lemma_pow2_unfold(k as nat + 1);
            number::lemma_pow2_order(k as nat, 31);
            vstd::arithmetic::power2::lemma2_to64();
            assert((r + step) * (r + step) <= 0x2_0000_0000 * 0x2_0000_0000) by (nonlinear_arith)
                requires
                    r + step <= 0x2_0000_0000,
            ;
        }
        let c: u64 = r + step;
        if (c as u128) * (c as u128) <= big {
            r = c;
            assert(r <= 0x1_0000_0000) by (nonlinear_arith)
                requires
                    r * r <= big,
                    big < 0x1_0000_0000_0000_0000,
                    r >= 0,
            ;
        }
    }
    assert(power2::pow2(0) == 1) by {
        vstd::arithmetic::power2::lemma2_to64();
    }
    assert(r <= n) by (nonlinear_arith)
        requires
            r * r <= n,
            r >= 0,
    ;
    r as usize
}

/// How many cells a tile of at most `max` vertices spans.
pub open spec fn tile_side(max: int, s: int) -> bool {
    exists|r: int| #[trigger]
        is_root(r, max) && s == (if r >= 2 {
            r - 1
        } else {
            1
        })
}

/// How many runs of `s` cells cover `n` cells.
pub open spec fn runs(n: int, s: int) -> int {
    (n + s - 1) / s
}

/// Where run `k` starts, and where it ends.
pub open spec fn run_start(k: int, s: int) -> int {
    k * s
}

pub open spec fn run_end(k: int, s: int, n: int) -> int {
    if k * s + s < n {
        k * s + s
    } else {
        n
    }
}

/// Tile `k` of a grid of `cw` by `ch` cells.
pub open spec fn tile_of(cw: int, ch: int, s: int, k: int) -> TileRect {
    let x = k % runs(cw, s);
    let y = k / runs(cw, s);
    TileRect {
        x0: run_start(x, s) as usize,
        y0: run_start(y, s) as usize,
        x1: run_end(x, s, cw) as usize,
        y1: run_end(y, s, ch) as usize,
    }
}

pub open spec fn tiles_of(cw: int, ch: int, s: int) -> Seq<TileRect> {
    Seq::new((runs(cw, s) * runs(ch, s)) as nat, |k: int| tile_of(cw, ch, s, k))
}

/// Runs follow each other, and the last one ends at the end.
proof fn lemma_runs(n: int, s: int, k: int)
    requires
        n >= 1,
        s >= 1,
        0 <= k < runs(n, s),
    ensures
        0 <= k * s < n,
        k * s < run_end(k, s, n) <= n,
        run_end(k, s, n) <= k * s + s,
        run_end(k, s, n) < n ==> k + 1 < runs(n, s) && run_end(k, s, n) == (k + 1) * s,
        run_end(k, s, n) == n ==> k + 1 == runs(n, s),
{
    let r = runs(n, s);
    vstd::arithmetic::div_mod::lemma_fundamental_div_mod(n + s - 1, s);
    vstd::arithmetic::div_mod::lemma_mod_bound(n + s - 1, s);
    assert(s * r == r * s) by (nonlinear_arith);
    assert(n <= r * s <= n + s - 1);
    assert((k + 1) * s == k * s + s) by (nonlinear_arith);
    assert((k + 1) * s <= r * s) by (nonlinear_arith)
        requires
            k + 1 <= r,
            s >= 1,
    ;
    assert(0 <= k * s) by (nonlinear_arith)
        requires
            k >= 0,
            s >= 1,
    ;
    if run_end(k, s, n) < n {
        assert(k + 1 < r) by (nonlinear_arith)
            requires
                k * s + s < n,
                n <= r * s,
                s >= 1,
        ;
    } else {
        assert(k + 1 >= r) by (nonlinear_arith)
            requires
                k * s + s >= n,
                r * s <= n + s - 1,
                s >= 1,
        ;
    }
}

proof fn lemma_runs_positive(n: int, s: int)
    requires
        n >= 1,
        s >= 1,
    ensures
        1 <= runs(n, s) <= n,
{
    vstd::arithmetic::div_mod::lemma_fundamental_div_mod(n + s - 1, s);
    vstd::arithmetic::div_mod::lemma_mod_bound(n + s - 1, s);
    let r = runs(n, s);
    assert(s * r == r * s) by (nonlinear_arith);
    assert(r >= 1) by (nonlinear_arith)
        requires
            r * s >= n,
            n >= 1,
            s >= 1,
    ;
    assert(r <= n) by (nonlinear_arith)
        requires
            r * s <= n + s - 1,
            s >= 1,
            n >= 1,
    ;
}

/// Split a `w × h` vertex grid into square-ish tiles of at most `max_verts`
/// vertices, four at least.
pub fn plan(w: usize, h: usize, max_verts: usize) -> (r: Vec<TileRect>)
    ensures
        exists|s: int| #[trigger]
            tile_side(max_verts as int, s) && r@ == tiles_of(
                crate::mesh::two_or_more(w) - 1,
                crate::mesh::two_or_more(h) - 1,
                s,
            ),
{
    let cw: usize = if w < 2 {
        1
    } else {
        w - 1
    };
    let ch: usize = if h < 2 {
        1
    } else {
        h - 1
    };
    let root: usize = whole_root(max_verts);
    // A tile spanning `side` cells owns one vertex more per axis.
    let side: usize = if root >= 2 {
        root - 1
    } else {
        1
    };
    let ghost s = side as int;
    let ghost nx = runs(cw as int, s);
    let ghost ny = runs(ch as int, s);
    let ghost all = tiles_of(cw as int, ch as int, s);
    proof {
        assert(is_root(root as int, max_verts as int));
        assert(tile_side(max_verts as int, s));
        lemma_runs_positive(cw as int, s);
        lemma_runs_positive(ch as int, s);
        assert(0 <= nx * ny) by (nonlinear_arith)
            requires
                nx >= 0,
                ny >= 0,
        ;
        assert(0 * nx == 0 && 0 * s == 0);
    }
    let mut tiles: Vec<TileRect> = Vec::new();
    let ghost mut row: int = 0;
    let mut y0: usize = 0;
    assert(tiles@ =~= all.take(0));
    while y0 < ch
        invariant
            cw >= 1,
            ch >= 1,
            side >= 1,
            s == side,
            nx == runs(cw as int, s),
            ny == runs(ch as int, s),
            nx >= 1,
            ny >= 1,
            all == tiles_of(cw as int, ch as int, s),
            all.len() == nx * ny,
            0 <= row <= ny,
            y0 <= ch,
            y0 < ch ==> row < ny && y0 == row * s,
            y0 == ch ==> row == ny,
            0 <= row * nx <= all.len(),
            tiles@ == all.take(row * nx),
        decreases ch - y0,
    {
        proof {
            lemma_runs(ch as int, s, row);
        }
        let y1: usize = if side < ch - y0 {
            y0 + side
        } else {
            ch
        };
        let ghost mut col: int = 0;
        let mut x0: usize = 0;
        proof {
            assert(row * nx + nx <= ny * nx) by (nonlinear_arith)
                requires
                    row + 1 <= ny,
                    nx >= 0,
            ;
            assert(nx * ny == ny * nx) by (nonlinear_arith);
        }
        while x0 < cw
            invariant
                cw >= 1,
                ch >= 1,
                side >= 1,
                s == side,
                nx == runs(cw as int, s),
                ny == runs(ch as int, s),
                nx >= 1,
                all == tiles_of(cw as int, ch as int, s),
                all.len() == nx * ny,
                0 <= row < ny,
                0 <= row * nx,
                row * nx + nx <= all.len(),
                y0 == row * s,
                y1 == run_end(row, s, ch as int),
                0 <= col <= nx,
                x0 <= cw,
                x0 < cw ==> col < nx && x0 == col * s,
                x0 == cw ==> col == nx,
                tiles@ == all.take(row * nx + col),
            decreases cw - x0,
        {
            proof {
                lemma_runs(cw as int, s, col);
                grid::lemma_index(nx, ny, col, row);
            }
            let x1: usize = if side < cw - x0 {
                x0 + side
            } else {
                cw
            };
            let t = TileRect { x0, y0, x1, y1 };
            tiles.push(t);
            proof {
                let k = row * nx + col;
                assert(all[k] == tile_of(cw as int, ch as int, s, k));
                assert(all[k] == t);
                assert(all.take(k + 1) =~= all.take(k).push(all[k]));
                col = col + 1;
            }
            x0 = x1;
        }
        proof {
            assert((row + 1) * nx == row * nx + nx) by (nonlinear_arith);
            row = row + 1;
        }
        y0 = y1;
    }
    proof {
        assert(nx * ny == ny * nx) by (nonlinear_arith);
        assert(all.take(all.len() as int) =~= all);
    }
    tiles
}


// ---------------------------------------------------------------------------
// Chunks
// ---------------------------------------------------------------------------

/// What a tile is part of, so the two can have different materials.
#[derive(Debug, Clone, Copy, PartialEq, Eq, Structural)]
pub enum TileKind {
    /// The relief itself: smooth-shaded, textured with the photo if there is one.
    Surface,
    /// Skirt, bezel, wall and back plate: flat-shaded, always plain.
    Frame,
}

/// A ready-to-upload mesh chunk.
#[derive(Debug, Clone)]
pub struct TileMesh {
    pub kind: TileKind,
    pub positions: Vec<[Real; 3]>,
    pub normals: Vec<[Real; 3]>,
    pub uvs: Vec<[Real; 2]>,
    pub indices: Vec<u32>,
}

impl TileMesh {
    pub fn triangles(&self) -> (r: usize)
        ensures
            r == self.indices@.len() / 3,
    {
        self.indices.len() / 3
    }
}

/// The normal that the height field's gradient gives at a grid vertex: central
/// differences, clamped at the border.
pub open spec fn slope_normal<F: Fn(Op, Real, Real) -> Real>(
    f: F,
    field: HeightField,
    pitch: Real,
    i: int,
    j: int,
) -> Vector {
    let w = field.w as int;
    let h = field.h as int;
    let double = number::times(f, Real { bits: TWO }, pitch);
    let dx = number::over(
        f,
        number::minus(
            f,
            field.height(grid::pin(i + 1, w), grid::pin(j, h)),
            field.height(grid::pin(i - 1, w), grid::pin(j, h)),
        ),
        double,
    );
    let dy = number::over(
        f,
        number::minus(
            f,
            field.height(grid::pin(i, w), grid::pin(j - 1, h)),
            field.height(grid::pin(i, w), grid::pin(j + 1, h)),
        ),
        double,
    );
    vector::normalized(
        f,
        Vector { x: dx.opposite(), y: dy.opposite(), z: Real { bits: ONE } },
    )
}

fn normal_at<F: Fn(Op, Real, Real) -> Real>(solid: &Solid, i: usize, j: usize, arith: &F) -> (r:
    Vector)
    requires
        number::steady(*arith),
        solid.wf(),
        i < solid.layout.w,
        j < solid.layout.h,
    ensures
        r == slope_normal(*arith, *solid.field, solid.layout.pitch_mm, i as int, j as int),
{
    proof {
        solid.layout.lemma_bounds();
    }
    let field = solid.field();
    let i: isize = i as isize;
    let j: isize = j as isize;
    let double = number::ask(arith, Op::Times, Real { bits: TWO }, solid.layout.pitch_mm);
    let run = number::ask(
        arith,
        Op::Minus,
        field.at_clamped(i + 1, j),
        field.at_clamped(i - 1, j),
    );
    // y decreases as j increases, so the difference runs the other way.
    let rise = number::ask(
        arith,
        Op::Minus,
        field.at_clamped(i, j - 1),
        field.at_clamped(i, j + 1),
    );
    let dx = number::ask(arith, Op::Over, run, double);
    let dy = number::ask(arith, Op::Over, rise, double);
    Vector { x: dx.neg(), y: dy.neg(), z: Real { bits: ONE } }.normalize(arith)
}

/// Where a grid vertex lies in the photo.
pub open spec fn texture_at<F: Fn(Op, Real, Real) -> Real>(
    f: F,
    w: int,
    h: int,
    i: int,
    j: int,
) -> Seq<Real> {
    seq![
        number::over(f, number::whole(i as nat), number::whole((w - 1) as nat)),
        number::over(f, number::whole(j as nat), number::whole((h - 1) as nat)),
    ]
}

fn texture<F: Fn(Op, Real, Real) -> Real>(
    w: usize,
    h: usize,
    i: usize,
    j: usize,
    arith: &F,
) -> (r: [Real; 2])
    requires
        number::steady(*arith),
        w >= 1,
        h >= 1,
    ensures
        r@ == texture_at(*arith, w as int, h as int, i as int, j as int),
{
    let u = number::ask(
        arith,
        Op::Over,
        Real::from_int(i as u64),
        Real::from_int((w - 1) as u64),
    );
    let v = number::ask(
        arith,
        Op::Over,
        Real::from_int(j as u64),
        Real::from_int((h - 1) as u64),
    );
    [u, v]
}

/// The grid vertex that is number `k` in a tile.
pub open spec fn tile_point(rect: TileRect, k: int) -> (int, int) {
    (rect.x0 + k % rect.across(), rect.y0 + k / rect.across())
}

/// The chunk for one tile of the full grid.
pub open spec fn is_surface_tile<F: Fn(Op, Real, Real) -> Real>(
    f: F,
    s: Solid,
    rect: TileRect,
    t: TileMesh,
) -> bool {
    let (w, h) = (s.layout.w as int, s.layout.h as int);
    let n = rect.across() * rect.down();
    &&& t.kind == TileKind::Surface
    &&& t.positions@.len() == n
    &&& t.normals@.len() == n
    &&& t.uvs@.len() == n
    &&& forall|k: int|
        0 <= k < n ==> (#[trigger] t.positions@[k])@ == s.place(
            f,
            s.at(tile_point(rect, k).1 * w + tile_point(rect, k).0),
        ).parts()
    &&& forall|k: int|
        0 <= k < n ==> (#[trigger] t.normals@[k])@ == slope_normal(
            f,
            *s.field,
            s.layout.pitch_mm,
            tile_point(rect, k).0,
            tile_point(rect, k).1,
        ).parts()
    &&& forall|k: int|
        0 <= k < n ==> (#[trigger] t.uvs@[k])@ == texture_at(
            f,
            w,
            h,
            tile_point(rect, k).0,
            tile_point(rect, k).1,
        )
    &&& t.indices@.len() == 6 * ((rect.across() - 1) * (rect.down() - 1))
    &&& forall|k: int|
        0 <= k < t.indices@.len() ==> #[trigger] t.indices@[k] == full::face(
            rect.across(),
            k / 3,
        )[k % 3]
}

/// The tile lies in the grid, and its counts fit.
pub open spec fn tile_inside(rect: TileRect, s: Solid) -> bool {
    &&& rect.x0 <= rect.x1 < s.layout.w
    &&& rect.y0 <= rect.y1 < s.layout.h
}

/// Build one tile of the relief surface.
pub fn surface_tile<F: Fn(Op, Real, Real) -> Real>(
    solid: &Solid,
    rect: &TileRect,
    arith: &F,
) -> (r: TileMesh)
    requires
        number::steady(*arith),
        solid.wf(),
        tile_inside(*rect, *solid),
    ensures
        is_surface_tile(*arith, *solid, *rect, r),
{
    let w: usize = solid.layout.w;
    let h: usize = solid.layout.h;
    let tw: usize = rect.width();
    let th: usize = rect.height();
    proof {
        solid.layout.lemma_bounds();
        assert(tw * th <= w * h) by (nonlinear_arith)
            requires
                0 <= tw <= w,
                0 <= th <= h,
        ;
        assert((tw - 1) * (th - 1) <= tw * th && 0 <= (tw - 1) * (th - 1)) by (nonlinear_arith)
            requires
                tw >= 1,
                th >= 1,
        ;
    }
    let n: usize = tw * th;
    let mut positions: Vec<[Real; 3]> = Vec::with_capacity(n);
    let mut normals: Vec<[Real; 3]> = Vec::with_capacity(n);
    let mut uvs: Vec<[Real; 2]> = Vec::with_capacity(n);
    let mut k: usize = 0;
    while k < n
        invariant
            number::steady(*arith),
            solid.wf(),
            tile_inside(*rect, *solid),
            w == solid.layout.w,
            h == solid.layout.h,
            tw == rect.across(),
            th == rect.down(),
            n == tw * th,
            k <= n,
            positions@.len() == k,
            normals@.len() == k,
            uvs@.len() == k,
            forall|i: int|
                0 <= i < k ==> (#[trigger] positions@[i])@ == solid.place(
                    *arith,
                    solid.at(tile_point(*rect, i).1 * w + tile_point(*rect, i).0),
                ).parts(),
            forall|i: int|
                0 <= i < k ==> (#[trigger] normals@[i])@ == slope_normal(
                    *arith,
                    *solid.field,
                    solid.layout.pitch_mm,
                    tile_point(*rect, i).0,
                    tile_point(*rect, i).1,
                ).parts(),
            forall|i: int|
                0 <= i < k ==> (#[trigger] uvs@[i])@ == texture_at(
                    *arith,
                    w as int,
                    h as int,
                    tile_point(*rect, i).0,
                    tile_point(*rect, i).1,
                ),
        decreases n - k,
    {
        proof {
            grid::lemma_cell(tw as int, th as int, k as int);
        }
        let i: usize = rect.x0 + k % tw;
        let j: usize = rect.y0 + k / tw;
        proof {
            grid::lemma_index(w as int, h as int, i as int, j as int);
            solid.layout.lemma_bounds();
        }
        positions.push(solid.position(j * w + i, arith).to_array());
        normals.push(normal_at(solid, i, j, arith).to_array());
        uvs.push(texture(w, h, i, j, arith));
        k = k + 1;
    }
    let quads: usize = (tw - 1) * (th - 1);
    let mut indices: Vec<u32> = Vec::new();
    let mut q: usize = 0;
    while q < quads
        invariant
            solid.wf(),
            w == solid.layout.w,
            h == solid.layout.h,
            tw == rect.across(),
            th == rect.down(),
            1 <= tw <= w,
            1 <= th <= h,
            quads == (tw - 1) * (th - 1),
            tw * th <= w * h,
            q <= quads,
            indices@.len() == 6 * q,
            forall|i: int|
                0 <= i < 6 * q ==> #[trigger] indices@[i] == full::face(tw as int, i / 3)[i % 3],
        decreases quads - q,
    {
        let ghost was = indices@;
        assert(tw >= 2 && th >= 2) by (nonlinear_arith)
            requires
                0 <= q < (tw - 1) * (th - 1),
                tw >= 1,
                th >= 1,
        ;
        let i: usize = q % (tw - 1);
        let j: usize = q / (tw - 1);
        proof {
            grid::lemma_cell(tw - 1, th - 1, q as int);
            grid::lemma_index(tw as int, th as int, i as int, j as int);
            grid::lemma_index(tw as int, th as int, i + 1, j + 1);
            assert((j + 1) * tw == j * tw + tw) by (nonlinear_arith);
        }
        let tl: u32 = (j * tw + i) as u32;
        let tr: u32 = tl + 1;
        let bl: u32 = tl + tw as u32;
        let br: u32 = bl + 1;
        indices.push(tl);
        indices.push(bl);
        indices.push(br);
        indices.push(tl);
        indices.push(br);
        indices.push(tr);
        proof {
            let a = full::face(tw as int, 2 * q);
            let b = full::face(tw as int, 2 * q + 1);
            assert((2 * q) / 2 == q && (2 * q + 1) / 2 == q);
            assert(a == [tl, bl, br] && b == [tl, br, tr]);
            assert forall|m: int| 0 <= m < 6 * (q + 1) implies #[trigger] indices@[m] == full::face(
                tw as int,
                m / 3,
            )[m % 3] by {
                if m < 6 * q {
                    assert(was[m] == full::face(tw as int, m / 3)[m % 3]);
                } else {
                    let d = m - 6 * q;
                    if d < 3 {
                        assert(m / 3 == 2 * q && m % 3 == d);
                    } else {
                        assert(m / 3 == 2 * q + 1 && m % 3 == d - 3);
                    }
                }
            }
        }
        q = q + 1;
    }
    TileMesh { kind: TileKind::Surface, positions, normals, uvs, indices }
}

/// A chunk whose vertices are not shared: triangle after triangle, with the
/// numbers counting up.
pub open spec fn counted(indices: Seq<u32>, n: int) -> bool {
    indices.len() == n && forall|k: int| 0 <= k < n ==> #[trigger] indices[k] == k
}

fn count_up(n: usize) -> (r: Vec<u32>)
    requires
        n <= u32::MAX,
    ensures
        counted(r@, n as int),
{
    let mut r: Vec<u32> = Vec::with_capacity(n);
    let mut k: usize = 0;
    while k < n
        invariant
            n <= u32::MAX,
            k <= n,
            counted(r@, k as int),
        decreases n - k,
    {
        r.push(k as u32);
        k = k + 1;
    }
    r
}

/// The chunk for the frame.
pub open spec fn is_frame_tile<F: Fn(Op, Real, Real) -> Real>(
    f: F,
    s: Solid,
    t: TileMesh,
) -> bool {
    let m = s.frame();
    let n = 3 * m.len();
    &&& t.kind == TileKind::Frame
    &&& t.positions@.len() == n
    &&& t.normals@.len() == n
    &&& t.uvs@.len() == n
    &&& counted(t.indices@, n as int)
    &&& forall|k: int|
        0 <= k < n ==> (#[trigger] t.positions@[k])@ == s.place(
            f,
            s.at(m[k / 3][k % 3] as int),
        ).parts()
    &&& forall|k: int|
        0 <= k < n ==> (#[trigger] t.normals@[k])@ == vector::normal_of(
            f,
            s.place(f, s.at(m[k / 3][0] as int)),
            s.place(f, s.at(m[k / 3][1] as int)),
            s.place(f, s.at(m[k / 3][2] as int)),
        ).parts()
    &&& forall|k: int|
        0 <= k < n ==> (#[trigger] t.uvs@[k])@ == seq![Real { bits: ZERO }, Real { bits: ZERO }]
}

/// Build the frame as one flat-shaded mesh.
///
/// Flat because a bezel with rounded-looking edges reads as a modelling mistake.
/// Frame triangles are few, so three vertices per triangle cost nothing.
pub fn frame_tile<F: Fn(Op, Real, Real) -> Real>(solid: &Solid, arith: &F) -> (r: TileMesh)
    requires
        number::steady(*arith),
        solid.wf(),
        3 * solid.frame().len() <= u32::MAX,
    ensures
        is_frame_tile(*arith, *solid, r),
{
    let ghost m = solid.frame();
    let mut triangles: Vec<[u32; 3]> = Vec::new();
    let mut marks: Vec<Fraction> = Vec::new();
    solid.for_each_frame_triangle(&mut triangles, &mut marks);
    assert(triangles@ =~= m);
    let mut positions: Vec<[Real; 3]> = Vec::new();
    let mut normals: Vec<[Real; 3]> = Vec::new();
    let mut uvs: Vec<[Real; 2]> = Vec::new();
    let zero = Real { bits: ZERO };
    let mut n: usize = 0;
    while n < triangles.len()
        invariant
            number::steady(*arith),
            solid.wf(),
            m == solid.frame(),
            triangles@ == m,
            3 * m.len() <= u32::MAX,
            zero == (Real { bits: ZERO }),
            n <= m.len(),
            positions@.len() == 3 * n,
            normals@.len() == 3 * n,
            uvs@.len() == 3 * n,
            forall|k: int|
                0 <= k < 3 * n ==> (#[trigger] positions@[k])@ == solid.place(
                    *arith,
                    solid.at(m[k / 3][k % 3] as int),
                ).parts(),
            forall|k: int|
                0 <= k < 3 * n ==> (#[trigger] normals@[k])@ == vector::normal_of(
                    *arith,
                    solid.place(*arith, solid.at(m[k / 3][0] as int)),
                    solid.place(*arith, solid.at(m[k / 3][1] as int)),
                    solid.place(*arith, solid.at(m[k / 3][2] as int)),
                ).parts(),
            forall|k: int| 0 <= k < 3 * n ==> (#[trigger] uvs@[k])@ == seq![zero, zero],
        decreases m.len() - n,
    {
        let t = triangles[n];
        let a = solid.position(t[0] as usize, arith);
        let b = solid.position(t[1] as usize, arith);
        let c = solid.position(t[2] as usize, arith);
        let normal = a.normal(b, c, arith);
        let pair: [Real; 2] = [zero, zero];
        assert(pair@ =~= seq![zero, zero]);
        positions.push(a.to_array());
        positions.push(b.to_array());
        positions.push(c.to_array());
        normals.push(normal.to_array());
        normals.push(normal.to_array());
        normals.push(normal.to_array());
        uvs.push(pair);
        uvs.push(pair);
        uvs.push(pair);
        assert((3 * n) / 3 == n && (3 * n) % 3 == 0);
        assert((3 * n + 1) / 3 == n && (3 * n + 1) % 3 == 1);
        assert((3 * n + 2) / 3 == n && (3 * n + 2) % 3 == 2);
        n = n + 1;
    }
    let indices = count_up(positions.len());
    TileMesh { kind: TileKind::Frame, positions, normals, uvs, indices }
}


/// After `n` triangles: the runs that are full, and where the open one starts.
pub open spec fn cut_after(n: nat, max: int) -> (Seq<(int, int)>, int)
    decreases n,
{
    if n == 0 {
        (Seq::empty(), 0)
    } else {
        let (c, s) = cut_after((n - 1) as nat, max);
        if 3 * (n - 1 - s) + 3 > max {
            (c.push((s, n - 1)), n - 1)
        } else {
            (c, s)
        }
    }
}

/// Consecutive runs of `n` triangles with at most `max` vertices each, as far as
/// single triangles allow.
pub open spec fn cuts(n: nat, max: int) -> Seq<(int, int)> {
    let (c, s) = cut_after(n, max);
    if s < n {
        c.push((s, n as int))
    } else {
        c
    }
}

/// The grid coordinates of a surface vertex.
pub open spec fn grid_of(b: Block) -> (int, int) {
    match b {
        Block::Surface { i, j } => (i as int, j as int),
        _ => (0, 0),
    }
}

/// The vertices of the surface triangles from one to another, not shared.
pub open spec fn holds_run<F: Fn(Op, Real, Real) -> Real>(
    f: F,
    s: Solid,
    from: int,
    to: int,
    t: TileMesh,
) -> bool {
    let m = s.surface();
    let n = 3 * (to - from);
    &&& t.kind == TileKind::Surface
    &&& t.positions@.len() == n
    &&& t.normals@.len() == n
    &&& t.uvs@.len() == n
    &&& forall|k: int|
        0 <= k < n ==> (#[trigger] t.positions@[k])@ == s.place(
            f,
            s.at(m[from + k / 3][k % 3] as int),
        ).parts()
    &&& forall|k: int|
        0 <= k < n ==> (#[trigger] t.normals@[k])@ == slope_normal(
            f,
            *s.field,
            s.layout.pitch_mm,
            grid_of(s.at(m[from + k / 3][k % 3] as int)).0,
            grid_of(s.at(m[from + k / 3][k % 3] as int)).1,
        ).parts()
    &&& forall|k: int|
        0 <= k < n ==> (#[trigger] t.uvs@[k])@ == texture_at(
            f,
            s.layout.w as int,
            s.layout.h as int,
            grid_of(s.at(m[from + k / 3][k % 3] as int)).0,
            grid_of(s.at(m[from + k / 3][k % 3] as int)).1,
        )
}

/// The chunk for a run of triangles of a simplified surface.
pub open spec fn is_run_tile<F: Fn(Op, Real, Real) -> Real>(
    f: F,
    s: Solid,
    run: (int, int),
    t: TileMesh,
) -> bool {
    holds_run(f, s, run.0, run.1, t) && counted(t.indices@, 3 * (run.1 - run.0))
}

fn empty_chunk() -> (r: TileMesh)
    ensures
        r.kind == TileKind::Surface,
        r.positions@.len() == 0,
        r.normals@.len() == 0,
        r.uvs@.len() == 0,
        r.indices@.len() == 0,
{
    TileMesh {
        kind: TileKind::Surface,
        positions: Vec::new(),
        normals: Vec::new(),
        uvs: Vec::new(),
        indices: Vec::new(),
    }
}

/// Add one vertex of the surface to a chunk.
fn add_vertex<F: Fn(Op, Real, Real) -> Real>(
    solid: &Solid,
    v: u32,
    chunk: &mut TileMesh,
    arith: &F,
)
    requires
        number::steady(*arith),
        solid.wf(),
        v < solid.surface_count(),
    ensures
        final(chunk).kind == old(chunk).kind,
        final(chunk).indices@ == old(chunk).indices@,
        ({
            let b = solid.at(v as int);
            let g = grid_of(b);
            &&& final(chunk).positions@ == old(chunk).positions@.push(final(chunk).positions@.last())
            &&& final(chunk).positions@.last()@ == solid.place(*arith, b).parts()
            &&& final(chunk).normals@ == old(chunk).normals@.push(final(chunk).normals@.last())
            &&& final(chunk).normals@.last()@ == slope_normal(
                *arith,
                *solid.field,
                solid.layout.pitch_mm,
                g.0,
                g.1,
            ).parts()
            &&& final(chunk).uvs@ == old(chunk).uvs@.push(final(chunk).uvs@.last())
            &&& final(chunk).uvs@.last()@ == texture_at(
                *arith,
                solid.layout.w as int,
                solid.layout.h as int,
                g.0,
                g.1,
            )
        }),
{
    let ghost was = *chunk;
    let b = solid.block(v as usize);
    proof {
        solid.lemma_one_block(v as int, b, b);
    }
    let (i, j): (usize, usize) = match b {
        Block::Surface { i, j } => (i, j),
        _ => (0, 0),
    };
    assert(b is Surface);
    chunk.positions.push(solid.position(v as usize, arith).to_array());
    chunk.normals.push(normal_at(solid, i, j, arith).to_array());
    chunk.uvs.push(texture(solid.layout.w, solid.layout.h, i, j, arith));
    assert(chunk.positions@ =~= was.positions@.push(chunk.positions@.last()));
    assert(chunk.normals@ =~= was.normals@.push(chunk.normals@.last()));
    assert(chunk.uvs@ =~= was.uvs@.push(chunk.uvs@.last()));
}

/// Add one triangle of the surface to the open chunk.
fn add_triangle<F: Fn(Op, Real, Real) -> Real>(
    solid: &Solid,
    Ghost(from): Ghost<int>,
    Ghost(n): Ghost<int>,
    t: [u32; 3],
    chunk: &mut TileMesh,
    arith: &F,
)
    requires
        number::steady(*arith),
        solid.wf(),
        0 <= from <= n < solid.surface().len(),
        solid.surface()[n] == t,
        holds_run(*arith, *solid, from, n, *old(chunk)),
    ensures
        holds_run(*arith, *solid, from, n + 1, *final(chunk)),
{
    let ghost c0 = *chunk;
    let ghost m = solid.surface();
    proof {
        solid.lemma_surface();
        assert(crate::topology::slot(m, n, 0) && crate::topology::slot(m, n, 1)
            && crate::topology::slot(m, n, 2));
        assert(m[n][0] < solid.surface_count());
        assert(m[n][1] < solid.surface_count());
        assert(m[n][2] < solid.surface_count());
    }
    add_vertex(solid, t[0], chunk, arith);
    let ghost c1 = *chunk;
    add_vertex(solid, t[1], chunk, arith);
    let ghost c2 = *chunk;
    add_vertex(solid, t[2], chunk, arith);
    proof {
        let l = 3 * (n - from);
        assert forall|d: int| 0 <= d < 3 implies vertex_data(
            *arith,
            *solid,
            #[trigger] m[n][d] as int,
            *chunk,
            l + d,
        ) by {
            assert(chunk.positions@[l] == c1.positions@.last());
            assert(chunk.positions@[l + 1] == c2.positions@.last());
            assert(chunk.normals@[l] == c1.normals@.last());
            assert(chunk.normals@[l + 1] == c2.normals@.last());
            assert(chunk.uvs@[l] == c1.uvs@.last());
            assert(chunk.uvs@[l + 1] == c2.uvs@.last());
        }
        lemma_run_grows(*arith, *solid, from, n, c0, *chunk);
    }
}

/// Entry `k` of the chunk is this surface vertex.
spec fn vertex_data<F: Fn(Op, Real, Real) -> Real>(
    f: F,
    s: Solid,
    v: int,
    t: TileMesh,
    k: int,
) -> bool {
    let b = s.at(v);
    &&& t.positions@[k]@ == s.place(f, b).parts()
    &&& t.normals@[k]@ == slope_normal(
        f,
        *s.field,
        s.layout.pitch_mm,
        grid_of(b).0,
        grid_of(b).1,
    ).parts()
    &&& t.uvs@[k]@ == texture_at(
        f,
        s.layout.w as int,
        s.layout.h as int,
        grid_of(b).0,
        grid_of(b).1,
    )
}

/// Entry `k` of the chunk is the vertex that the run has there.
spec fn run_entry<F: Fn(Op, Real, Real) -> Real>(
    f: F,
    s: Solid,
    from: int,
    t: TileMesh,
    k: int,
) -> bool {
    vertex_data(f, s, s.surface()[from + k / 3][k % 3] as int, t, k)
}

proof fn lemma_run_grows<F: Fn(Op, Real, Real) -> Real>(
    f: F,
    s: Solid,
    from: int,
    n: int,
    a: TileMesh,
    b: TileMesh,
)
    requires
        0 <= from <= n < s.surface().len(),
        holds_run(f, s, from, n, a),
        b.kind == a.kind,
        b.positions@.len() == 3 * (n - from) + 3,
        b.normals@.len() == 3 * (n - from) + 3,
        b.uvs@.len() == 3 * (n - from) + 3,
        forall|k: int| 0 <= k < 3 * (n - from) ==> #[trigger] b.positions@[k] == a.positions@[k],
        forall|k: int| 0 <= k < 3 * (n - from) ==> #[trigger] b.normals@[k] == a.normals@[k],
        forall|k: int| 0 <= k < 3 * (n - from) ==> #[trigger] b.uvs@[k] == a.uvs@[k],
        forall|d: int|
            0 <= d < 3 ==> vertex_data(
                f,
                s,
                #[trigger] s.surface()[n][d] as int,
                b,
                3 * (n - from) + d,
            ),
    ensures
        holds_run(f, s, from, n + 1, b),
{
    let m = s.surface();
    let l = 3 * (n - from);
    assert forall|k: int| 0 <= k < l + 3 implies #[trigger] run_entry(f, s, from, b, k) by {
        if k < l {
            assert(b.positions@[k] == a.positions@[k]);
            assert(b.normals@[k] == a.normals@[k]);
            assert(b.uvs@[k] == a.uvs@[k]);
        } else {
            let d = k - l;
            assert(k / 3 == n - from && k % 3 == d);
            assert(vertex_data(f, s, m[n][d] as int, b, l + d));
        }
    }
    assert forall|k: int| 0 <= k < l + 3 implies (#[trigger] b.positions@[k])@ == s.place(
        f,
        s.at(m[from + k / 3][k % 3] as int),
    ).parts() by {
        assert(run_entry(f, s, from, b, k));
    }
    assert forall|k: int| 0 <= k < l + 3 implies (#[trigger] b.normals@[k])@ == slope_normal(
        f,
        *s.field,
        s.layout.pitch_mm,
        grid_of(s.at(m[from + k / 3][k % 3] as int)).0,
        grid_of(s.at(m[from + k / 3][k % 3] as int)).1,
    ).parts() by {
        assert(run_entry(f, s, from, b, k));
    }
    assert forall|k: int| 0 <= k < l + 3 implies (#[trigger] b.uvs@[k])@ == texture_at(
        f,
        s.layout.w as int,
        s.layout.h as int,
        grid_of(s.at(m[from + k / 3][k % 3] as int)).0,
        grid_of(s.at(m[from + k / 3][k % 3] as int)).1,
    ) by {
        assert(run_entry(f, s, from, b, k));
    }
}

proof fn lemma_cut_order(n: nat, max: int)
    ensures
        0 <= cut_after(n, max).1 <= n,
        n > 0 ==> cut_after(n, max).1 < n,
        3 * (n - cut_after(n, max).1) <= (if max >= 3 {
            max
        } else {
            3
        }),
    decreases n,
{
    if n > 0 {
        lemma_cut_order((n - 1) as nat, max);
    }
}

/// Chunk a simplified surface.
///
/// A simplified triangulation has no rectangular structure to cut along, so the
/// chunks are consecutive runs of triangles, and their vertices are not shared.
fn simplified_chunks<F: Fn(Op, Real, Real) -> Real>(
    solid: &Solid,
    max_verts: usize,
    arith: &F,
) -> (r: Vec<TileMesh>)
    requires
        number::steady(*arith),
        solid.wf(),
        max_verts <= u32::MAX || 3 * solid.surface().len() <= u32::MAX,
    ensures
        r@.len() == cuts(solid.surface().len(), max_verts as int).len(),
        forall|i: int|
            0 <= i < r@.len() ==> is_run_tile(
                *arith,
                *solid,
                cuts(solid.surface().len(), max_verts as int)[i],
                #[trigger] r@[i],
            ),
{
    let ghost m = solid.surface();
    let ghost max = max_verts as int;
    let mut triangles: Vec<[u32; 3]> = Vec::new();
    let mut marks: Vec<Fraction> = Vec::new();
    solid.for_each_surface_triangle(&mut triangles, &mut marks);
    assert(triangles@ =~= m);
    let mut chunks: Vec<TileMesh> = Vec::new();
    let mut current = empty_chunk();
    let mut n: usize = 0;
    while n < triangles.len()
        invariant
            number::steady(*arith),
            solid.wf(),
            m == solid.surface(),
            triangles@ == m,
            max == max_verts,
            max_verts <= u32::MAX || 3 * m.len() <= u32::MAX,
            n <= m.len(),
            chunks@.len() == cut_after(n as nat, max).0.len(),
            forall|i: int|
                0 <= i < chunks@.len() ==> is_run_tile(
                    *arith,
                    *solid,
                    cut_after(n as nat, max).0[i],
                    #[trigger] chunks@[i],
                ),
            holds_run(*arith, *solid, cut_after(n as nat, max).1, n as int, current),
        decreases m.len() - n,
    {
        proof {
            lemma_cut_order(n as nat, max);
        }
        let ghost from = cut_after(n as nat, max).1;
        let ghost next = cut_after((n + 1) as nat, max);
        let held: usize = current.positions.len();
        let fits: bool = held <= max_verts && max_verts - held >= 3;
        if !fits {
            let mut full = current;
            full.indices = count_up(held);
            assert(is_run_tile(*arith, *solid, (from, n as int), full));
            chunks.push(full);
            current = empty_chunk();
        }
        assert(next.1 == (if fits { from } else { n as int }));
        add_triangle(solid, Ghost(next.1), Ghost(n as int), triangles[n], &mut current, arith);
        n = n + 1;
    }
    proof {
        lemma_cut_order(n as nat, max);
    }
    if current.positions.len() > 0 {
        let mut full = current;
        full.indices = count_up(full.positions.len());
        chunks.push(full);
    }
    chunks
}

/// How many triangles the chunks have together.
pub open spec fn chunk_total(t: Seq<TileMesh>) -> int
    decreases t.len(),
{
    if t.len() == 0 {
        0
    } else {
        chunk_total(t.drop_last()) + t.last().indices@.len() / 3
    }
}

/// How far the first `k` runs reach.
spec fn ext(k: int, s: int, n: int) -> int {
    if k * s < n {
        k * s
    } else {
        n
    }
}

proof fn lemma_ext(n: int, s: int, k: int)
    requires
        n >= 1,
        s >= 1,
        0 <= k < runs(n, s),
    ensures
        ext(k, s, n) == run_start(k, s),
        ext(k + 1, s, n) == run_end(k, s, n),
        k + 1 == runs(n, s) ==> ext(k + 1, s, n) == n,
{
    lemma_runs(n, s, k);
    assert((k + 1) * s == k * s + s) by (nonlinear_arith);
}

/// How many triangles some tiles have between them.
pub open spec fn rect_total(t: Seq<TileRect>) -> int
    decreases t.len(),
{
    if t.len() == 0 {
        0
    } else {
        rect_total(t.drop_last()) + 2 * ((t.last().across() - 1) * (t.last().down() - 1))
    }
}

/// What the tiles of some whole rows, and of a part of the next, come to.
proof fn lemma_rects_total(cw: int, ch: int, s: int, row: int, col: int)
    requires
        1 <= cw <= usize::MAX,
        1 <= ch <= usize::MAX,
        s >= 1,
        0 <= row <= runs(ch, s),
        0 <= col <= runs(cw, s),
        row == runs(ch, s) ==> col == 0,
    ensures
        0 <= row * runs(cw, s) + col <= tiles_of(cw, ch, s).len(),
        rect_total(tiles_of(cw, ch, s).take(row * runs(cw, s) + col)) == 2 * (ext(row, s, ch) * cw
            + (ext(row + 1, s, ch) - ext(row, s, ch)) * ext(col, s, cw)),
    decreases row, col,
{
    let all = tiles_of(cw, ch, s);
    let nx = runs(cw, s);
    let ny = runs(ch, s);
    lemma_runs_positive(cw, s);
    lemma_runs_positive(ch, s);
    assert(0 * s == 0 && 0 * nx == 0 && 0 * cw == 0);
    assert(nx * ny >= 0 && nx * ny == ny * nx && 0 <= row * nx && (row < ny ==> row * nx + nx <= ny
        * nx)) by (nonlinear_arith)
        requires
            nx >= 0,
            0 <= row <= ny,
    ;
    let dy = ext(row + 1, s, ch) - ext(row, s, ch);
    let t = all.take(row * nx + col);
    if col > 0 {
        let k = row * nx + col - 1;
        grid::lemma_index(nx, ny, col - 1, row);
        lemma_rects_total(cw, ch, s, row, col - 1);
        let rect = tile_of(cw, ch, s, k);
        assert(t.drop_last() =~= all.take(row * nx + (col - 1)));
        assert(t.last() == rect);
        lemma_ext(cw, s, col - 1);
        lemma_ext(ch, s, row);
        lemma_runs(cw, s, col - 1);
        lemma_runs(ch, s, row);
        let a = ext(col, s, cw) - ext(col - 1, s, cw);
        assert(rect.across() - 1 == a && rect.down() - 1 == dy);
        assert(dy * ext(col, s, cw) == dy * ext(col - 1, s, cw) + a * dy) by (nonlinear_arith)
            requires
                a == ext(col, s, cw) - ext(col - 1, s, cw),
        ;
    } else if row > 0 {
        assert((row - 1) * nx + nx == row * nx) by (nonlinear_arith);
        lemma_rects_total(cw, ch, s, row - 1, nx);
        assert(all.take((row - 1) * nx + nx) =~= t);
        lemma_ext(cw, s, nx - 1);
        let dp = ext(row, s, ch) - ext(row - 1, s, ch);
        assert(ext(row - 1, s, ch) * cw + dp * cw == ext(row, s, ch) * cw) by (nonlinear_arith)
            requires
                dp == ext(row, s, ch) - ext(row - 1, s, ch),
        ;
        assert(dy * ext(0, s, cw) == 0) by (nonlinear_arith)
            requires
                ext(0, s, cw) == 0,
        ;
    } else {
        assert(ext(0, s, ch) == 0 && ext(0, s, cw) == 0);
        assert(dy * 0 == 0);
        assert(t.len() == 0);
    }
}

/// Chunks have the triangles of their tiles.
proof fn lemma_tiles_total<F: Fn(Op, Real, Real) -> Real>(
    f: F,
    solid: Solid,
    rects: Seq<TileRect>,
    t: Seq<TileMesh>,
)
    requires
        t.len() == rects.len(),
        forall|i: int|
            0 <= i < t.len() ==> is_surface_tile(f, solid, rects[i], #[trigger] t[i]),
    ensures
        chunk_total(t) == rect_total(rects),
    decreases t.len(),
{
    if t.len() > 0 {
        let (d, e) = (rects.drop_last(), t.drop_last());
        assert forall|i: int| 0 <= i < e.len() implies is_surface_tile(
            f,
            solid,
            d[i],
            #[trigger] e[i],
        ) by {
            assert(is_surface_tile(f, solid, rects[i], t[i]));
        }
        lemma_tiles_total(f, solid, d, e);
        assert(is_surface_tile(f, solid, rects[t.len() - 1], t[t.len() - 1]));
        let a = (rects.last().across() - 1) * (rects.last().down() - 1);
        assert((6 * a) / 3 == 2 * a);
    }
}

/// The runs together have all the triangles.
proof fn lemma_cuts_total<F: Fn(Op, Real, Real) -> Real>(
    f: F,
    solid: Solid,
    n: nat,
    max: int,
    t: Seq<TileMesh>,
)
    requires
        t.len() == cut_after(n, max).0.len(),
        forall|i: int|
            0 <= i < t.len() ==> is_run_tile(f, solid, cut_after(n, max).0[i], #[trigger] t[i]),
    ensures
        chunk_total(t) == cut_after(n, max).1,
    decreases n,
{
    if n > 0 {
        let (c, s) = cut_after((n - 1) as nat, max);
        lemma_cut_order((n - 1) as nat, max);
        if 3 * (n - 1 - s) + 3 > max {
            let d = t.drop_last();
            assert forall|i: int| 0 <= i < d.len() implies is_run_tile(
                f,
                solid,
                c[i],
                #[trigger] d[i],
            ) by {
                assert(is_run_tile(f, solid, cut_after(n, max).0[i], t[i]));
            }
            lemma_cuts_total(f, solid, (n - 1) as nat, max, d);
            assert(is_run_tile(f, solid, cut_after(n, max).0[t.len() - 1], t[t.len() - 1]));
        } else {
            lemma_cuts_total(f, solid, (n - 1) as nat, max, t);
        }
    }
}

/// The chunks of the preview: the surface, then the frame.
pub open spec fn is_preview<F: Fn(Op, Real, Real) -> Real>(
    f: F,
    s: Solid,
    max: int,
    t: Seq<TileMesh>,
) -> bool {
    &&& t.len() >= 1
    &&& is_frame_tile(f, s, t.last())
    &&& match s.decimation {
        None => exists|side: int| #[trigger]
            tile_side(max, side) && t.len() == tiles_of(
                s.layout.w - 1,
                s.layout.h - 1,
                side,
            ).len() + 1 && forall|i: int|
                0 <= i < t.len() - 1 ==> is_surface_tile(
                    f,
                    s,
                    tiles_of(s.layout.w - 1, s.layout.h - 1, side)[i],
                    #[trigger] t[i],
                ),
        Some(_) => t.len() == cuts(s.surface().len(), max).len() + 1 && forall|i: int|
            0 <= i < t.len() - 1 ==> is_run_tile(
                f,
                s,
                cuts(s.surface().len(), max)[i],
                #[trigger] t[i],
            ),
    }
}

/// Every chunk of the preview: the surface tiles, then the frame. Chunking keeps
/// the triangle count.
pub fn preview<F: Fn(Op, Real, Real) -> Real>(
    solid: &Solid,
    max_verts: usize,
    arith: &F,
) -> (r: Vec<TileMesh>)
    requires
        number::steady(*arith),
        solid.wf(),
        solid.decimation is Some ==> max_verts <= u32::MAX || 3 * solid.surface().len() <= u32::MAX,
        3 * solid.frame().len() <= u32::MAX,
    ensures
        is_preview(*arith, *solid, max_verts as int, r@),
        chunk_total(r@) == solid.mesh().len(),
{
    proof {
        solid.layout.lemma_bounds();
        solid.lemma_surface();
    }
    let mut out: Vec<TileMesh>;
    if solid.decimation().is_some() {
        out = simplified_chunks(solid, max_verts, arith);
    } else {
        let rects = plan(solid.layout.w, solid.layout.h, max_verts);
        let ghost cw = solid.layout.w - 1;
        let ghost ch = solid.layout.h - 1;
        let ghost s = choose|s: int| #[trigger]
            tile_side(max_verts as int, s) && rects@ == tiles_of(cw, ch, s);
        proof {
            lemma_runs_positive(cw, s);
            lemma_runs_positive(ch, s);
        }
        out = Vec::new();
        let mut k: usize = 0;
        while k < rects.len()
            invariant
                number::steady(*arith),
                solid.wf(),
                cw == solid.layout.w - 1,
                ch == solid.layout.h - 1,
                s >= 1,
                rects@ == tiles_of(cw, ch, s),
                k <= rects@.len(),
                out@.len() == k,
                forall|i: int|
                    0 <= i < k ==> is_surface_tile(
                        *arith,
                        *solid,
                        tile_of(cw, ch, s, i),
                        #[trigger] out@[i],
                    ),
            decreases rects@.len() - k,
        {
            proof {
                lemma_runs_positive(cw, s);
                lemma_runs_positive(ch, s);
                grid::lemma_cell(runs(cw, s), runs(ch, s), k as int);
                lemma_runs(cw, s, k as int % runs(cw, s));
                lemma_runs(ch, s, k as int / runs(cw, s));
                assert(rects@[k as int] == tile_of(cw, ch, s, k as int));
            }
            out.push(surface_tile(solid, &rects[k], arith));
            k = k + 1;
        }
    }
    let ghost tiles = out@;
    let frame = frame_tile(solid, arith);
    out.push(frame);
    proof {
        if solid.decimation is None {
            let cw = solid.layout.w - 1;
            let ch = solid.layout.h - 1;
            let s = choose|s: int| #[trigger]
                tile_side(max_verts as int, s) && tiles.len() == tiles_of(cw, ch, s).len()
                    && forall|i: int|
                    0 <= i < tiles.len() ==> is_surface_tile(
                        *arith,
                        *solid,
                        tile_of(cw, ch, s, i),
                        #[trigger] tiles[i],
                    );
            assert(tile_side(max_verts as int, s));
            assert forall|i: int| 0 <= i < out@.len() - 1 implies is_surface_tile(
                *arith,
                *solid,
                tiles_of(cw, ch, s)[i],
                #[trigger] out@[i],
            ) by {
                assert(tiles[i] == out@[i]);
                assert(is_surface_tile(*arith, *solid, tile_of(cw, ch, s, i), tiles[i]));
            }
        } else {
            assert forall|i: int| 0 <= i < out@.len() - 1 implies is_run_tile(
                *arith,
                *solid,
                cuts(solid.surface().len(), max_verts as int)[i],
                #[trigger] out@[i],
            ) by {
                assert(tiles[i] == out@[i]);
            }
        }
        law_chunking_keeps_the_count(*arith, *solid, max_verts as int, out@);
    }
    out
}

// ---------------------------------------------------------------------------
// Laws
// ---------------------------------------------------------------------------

/// Tiles share vertices but never a cell: whatever their size, they have the
/// triangles of the grid between them.
pub proof fn law_tile_triangles(cw: int, ch: int, s: int)
    requires
        1 <= cw <= usize::MAX,
        1 <= ch <= usize::MAX,
        s >= 1,
    ensures
        rect_total(tiles_of(cw, ch, s)) == 2 * (cw * ch),
{
    let nx = runs(cw, s);
    let ny = runs(ch, s);
    lemma_runs_positive(cw, s);
    lemma_runs_positive(ch, s);
    assert(nx * ny >= 0 && nx * ny == ny * nx) by (nonlinear_arith)
        requires
            nx >= 0,
            ny >= 0,
    ;
    lemma_rects_total(cw, ch, s, ny, 0);
    assert(tiles_of(cw, ch, s).take(ny * nx + 0) =~= tiles_of(cw, ch, s));
    lemma_ext(ch, s, ny - 1);
    assert(0 * s == 0);
    let step = ext(ny + 1, s, ch) - ext(ny, s, ch);
    assert(step * 0 == 0) by (nonlinear_arith);
    assert(ext(ny, s, ch) * cw == cw * ch) by (nonlinear_arith)
        requires
            ext(ny, s, ch) == ch,
    ;
}

/// Chunking keeps the triangle count: the chunks of the preview have as many
/// triangles between them as the solid.
pub proof fn law_chunking_keeps_the_count<F: Fn(Op, Real, Real) -> Real>(
    f: F,
    s: Solid,
    max: int,
    t: Seq<TileMesh>,
)
    requires
        s.wf(),
        is_preview(f, s, max, t),
    ensures
        chunk_total(t) == s.mesh().len(),
{
    s.layout.lemma_bounds();
    s.lemma_surface();
    let tiles = t.drop_last();
    assert(chunk_total(t) == chunk_total(tiles) + s.frame().len()) by {
        assert(t.last().indices@.len() == 3 * s.frame().len());
    }
    assert(s.mesh().len() == s.surface().len() + s.frame().len());
    match s.decimation {
        None => {
            let (cw, ch) = (s.layout.w - 1, s.layout.h - 1);
            let side = choose|side: int| #[trigger]
                tile_side(max, side) && t.len() == tiles_of(cw, ch, side).len() + 1 && forall|i: int|
                    0 <= i < t.len() - 1 ==> is_surface_tile(
                        f,
                        s,
                        tiles_of(cw, ch, side)[i],
                        #[trigger] t[i],
                    );
            let rects = tiles_of(cw, ch, side);
            assert forall|i: int| 0 <= i < tiles.len() implies is_surface_tile(
                f,
                s,
                rects[i],
                #[trigger] tiles[i],
            ) by {
                assert(is_surface_tile(f, s, rects[i], t[i]));
            }
            lemma_tiles_total(f, s, rects, tiles);
            law_tile_triangles(cw, ch, side);
            assert(s.surface().len() == 2 * (cw * ch));
        },
        Some(_) => {
            let n = s.surface().len();
            lemma_cut_order(n, max);
            let all = cuts(n, max);
            let d = if cut_after(n, max).1 < n {
                tiles.drop_last()
            } else {
                tiles
            };
            assert forall|i: int| 0 <= i < d.len() implies is_run_tile(
                f,
                s,
                cut_after(n, max).0[i],
                #[trigger] d[i],
            ) by {
                assert(is_run_tile(f, s, all[i], t[i]));
            }
            lemma_cuts_total(f, s, n, max, d);
            if cut_after(n, max).1 < n {
                let last = tiles.len() - 1;
                assert(is_run_tile(f, s, all[last], t[last]));
            }
        },
    }
}

/// Each list of a chunk has an entry for each of its vertices, and its triangles
/// use no others.
pub open spec fn sound(t: TileMesh) -> bool {
    &&& t.normals@.len() == t.positions@.len()
    &&& t.uvs@.len() == t.positions@.len()
    &&& forall|k: int|
        0 <= k < t.indices@.len() ==> #[trigger] t.indices@[k] < t.positions@.len()
}

/// The chunks of the preview are sound, each part of the surface has at most the
/// vertices asked for, and the frame comes last and by itself.
pub proof fn law_chunks_are_sound<F: Fn(Op, Real, Real) -> Real>(
    f: F,
    s: Solid,
    max: int,
    t: Seq<TileMesh>,
    i: int,
)
    requires
        s.wf(),
        is_preview(f, s, max, t),
        max >= 4,
        0 <= i < t.len(),
    ensures
        sound(t[i]),
        t[i].kind == TileKind::Frame <==> i == t.len() - 1,
        t[i].kind == TileKind::Surface ==> t[i].positions@.len() <= max,
{
    s.layout.lemma_bounds();
    if i < t.len() - 1 {
        match s.decimation {
            None => {
                let (cw, ch) = (s.layout.w - 1, s.layout.h - 1);
                let side = choose|side: int| #[trigger]
                    tile_side(max, side) && t.len() == tiles_of(cw, ch, side).len() + 1 && forall|
                        i: int,
                    |
                        0 <= i < t.len() - 1 ==> is_surface_tile(
                            f,
                            s,
                            tiles_of(cw, ch, side)[i],
                            #[trigger] t[i],
                        );
                let rect = tiles_of(cw, ch, side)[i];
                assert(is_surface_tile(f, s, rect, t[i]));
                law_tile_size(cw, ch, max, side, i);
                lemma_tile_sound(f, s, side, i, t[i]);
            },
            Some(_) => {
                let run = cuts(s.surface().len(), max)[i];
                assert(is_run_tile(f, s, run, t[i]));
                law_run_size(s.surface().len(), max, i);
            },
        }
    }
}

proof fn lemma_tile_sound<F: Fn(Op, Real, Real) -> Real>(
    f: F,
    s: Solid,
    side: int,
    i: int,
    t: TileMesh,
)
    requires
        s.wf(),
        side >= 1,
        0 <= i < tiles_of(s.layout.w - 1, s.layout.h - 1, side).len(),
        is_surface_tile(f, s, tiles_of(s.layout.w - 1, s.layout.h - 1, side)[i], t),
    ensures
        sound(t),
{
    let (cw, ch) = (s.layout.w - 1, s.layout.h - 1);
    s.layout.lemma_bounds();
    let rect = tiles_of(cw, ch, side)[i];
    let nx = runs(cw, side);
    lemma_runs_positive(cw, side);
    lemma_runs_positive(ch, side);
    grid::lemma_cell(nx, runs(ch, side), i);
    lemma_runs(cw, side, i % nx);
    lemma_runs(ch, side, i / nx);
    let (a, b) = (rect.across(), rect.down());
    assert(2 <= a <= s.layout.w && 2 <= b <= s.layout.h);
    assert(a * b <= s.layout.w * s.layout.h) by (nonlinear_arith)
        requires
            0 <= a <= s.layout.w,
            0 <= b <= s.layout.h,
    ;
    full::lemma_sheet(a, b);
    let m = full::mesh(a, b);
    assert forall|k: int| 0 <= k < t.indices@.len() implies #[trigger] t.indices@[k]
        < t.positions@.len() by {
        assert(crate::topology::slot(m, k / 3, k % 3));
        assert(m[k / 3][k % 3] < a * b);
    }
}

/// Every cell of the grid lies in exactly one tile.
pub proof fn law_tiles_cover_once(cw: int, ch: int, s: int, cx: int, cy: int)
    requires
        1 <= cw <= usize::MAX,
        1 <= ch <= usize::MAX,
        s >= 1,
        0 <= cx < cw,
        0 <= cy < ch,
    ensures
        exists|k: int|
            0 <= k < tiles_of(cw, ch, s).len() && tile_has(
                #[trigger] tiles_of(cw, ch, s)[k],
                cx,
                cy,
            ),
        forall|j: int, k: int|
            0 <= j < tiles_of(cw, ch, s).len() && 0 <= k < tiles_of(cw, ch, s).len() && tile_has(
                #[trigger] tiles_of(cw, ch, s)[j],
                cx,
                cy,
            ) && tile_has(#[trigger] tiles_of(cw, ch, s)[k], cx, cy) ==> j == k,
{
    let all = tiles_of(cw, ch, s);
    let nx = runs(cw, s);
    let ny = runs(ch, s);
    lemma_runs_positive(cw, s);
    lemma_runs_positive(ch, s);
    lemma_run_of(cw, s, cx);
    lemma_run_of(ch, s, cy);
    let (x, y) = (cx / s, cy / s);
    grid::lemma_index(nx, ny, x, y);
    let k = y * nx + x;
    lemma_runs(cw, s, x);
    lemma_runs(ch, s, y);
    assert(nx * ny >= 0) by (nonlinear_arith)
        requires
            nx >= 0,
            ny >= 0,
    ;
    assert(all[k] == tile_of(cw, ch, s, k));
    assert(tile_has(all[k], cx, cy));
    assert forall|j: int| 0 <= j < all.len() && tile_has(#[trigger] all[j], cx, cy) implies j
        == k by {
        grid::lemma_cell(nx, ny, j);
        lemma_runs(cw, s, j % nx);
        lemma_runs(ch, s, j / nx);
        lemma_run_unique(cw, s, j % nx, cx);
        lemma_run_unique(ch, s, j / nx, cy);
    }
}

/// The cell lies in the tile.
pub open spec fn tile_has(t: TileRect, cx: int, cy: int) -> bool {
    t.x0 <= cx < t.x1 && t.y0 <= cy < t.y1
}

proof fn lemma_run_of(n: int, s: int, c: int)
    requires
        n >= 1,
        s >= 1,
        0 <= c < n,
    ensures
        0 <= c / s < runs(n, s),
        (c / s) * s <= c < (c / s) * s + s,
{
    vstd::arithmetic::div_mod::lemma_fundamental_div_mod(c, s);
    vstd::arithmetic::div_mod::lemma_mod_bound(c, s);
    vstd::arithmetic::div_mod::lemma_fundamental_div_mod(n + s - 1, s);
    vstd::arithmetic::div_mod::lemma_mod_bound(n + s - 1, s);
    let q = c / s;
    let r = runs(n, s);
    assert(s * q == q * s) by (nonlinear_arith);
    assert(s * r == r * s) by (nonlinear_arith);
    assert(0 <= q) by (nonlinear_arith)
        requires
            q * s + c % s == c,
            c % s < s,
            c >= 0,
            s >= 1,
    ;
    assert(q < r) by (nonlinear_arith)
        requires
            q * s <= c,
            c < n,
            n <= r * s,
            s >= 1,
    ;
}

proof fn lemma_run_unique(n: int, s: int, k: int, c: int)
    requires
        s >= 1,
        k * s <= c < k * s + s,
        0 <= c,
    ensures
        c / s == k,
{
    vstd::arithmetic::div_mod::lemma_fundamental_div_mod_converse(c, s, k, c - k * s);
}

/// No tile has more vertices than asked for, or than the four of one cell.
pub proof fn law_tile_size(cw: int, ch: int, max: int, s: int, k: int)
    requires
        1 <= cw <= usize::MAX,
        1 <= ch <= usize::MAX,
        max >= 0,
        tile_side(max, s),
        0 <= k < tiles_of(cw, ch, s).len(),
    ensures
        ({
            let t = tiles_of(cw, ch, s)[k];
            t.across() * t.down() <= (if max >= 4 {
                max
            } else {
                4
            })
        }),
{
    let r = choose|r: int| #[trigger]
        is_root(r, max) && s == (if r >= 2 {
            r - 1
        } else {
            1
        });
    lemma_runs_positive(cw, s);
    lemma_runs_positive(ch, s);
    let nx = runs(cw, s);
    let ny = runs(ch, s);
    grid::lemma_cell(nx, ny, k);
    lemma_runs(cw, s, k % nx);
    lemma_runs(ch, s, k / nx);
    let t = tiles_of(cw, ch, s)[k];
    let (a, b) = (t.across(), t.down());
    assert(1 <= a <= s + 1 && 1 <= b <= s + 1);
    assert(a * b <= (s + 1) * (s + 1)) by (nonlinear_arith)
        requires
            1 <= a <= s + 1,
            1 <= b <= s + 1,
    ;
    if r < 2 {
        assert((s + 1) * (s + 1) == 4) by (nonlinear_arith)
            requires
                s == 1,
        ;
    }
}

/// A vertex that two tiles share has the same position and the same normal in
/// both.
pub proof fn law_seams_agree<F: Fn(Op, Real, Real) -> Real>(
    f: F,
    s: Solid,
    a: TileRect,
    b: TileRect,
    ta: TileMesh,
    tb: TileMesh,
    j: int,
    k: int,
)
    requires
        is_surface_tile(f, s, a, ta),
        is_surface_tile(f, s, b, tb),
        0 <= j < a.across() * a.down(),
        0 <= k < b.across() * b.down(),
        tile_point(a, j) == tile_point(b, k),
    ensures
        ta.positions@[j]@ == tb.positions@[k]@,
        ta.normals@[j]@ == tb.normals@[k]@,
        ta.uvs@[j]@ == tb.uvs@[k]@,
{
}

/// Triangle `i` lies in one of the runs.
spec fn in_a_run(c: Seq<(int, int)>, i: int) -> bool {
    exists|k: int| 0 <= k < c.len() && (#[trigger] c[k]).0 <= i < c[k].1
}

/// What the runs are after `n` triangles: in order, one beginning where the last
/// one ended, and each within bounds.
proof fn lemma_cut_after(n: nat, max: int)
    ensures
        ({
            let (c, s) = cut_after(n, max);
            &&& 0 <= s <= n
            &&& 3 * (n - s) <= max || n - s <= 1
            &&& forall|k: int|
                0 <= k < c.len() ==> 0 <= (#[trigger] c[k]).0 <= c[k].1 <= s && (3 * (c[k].1
                    - c[k].0) <= max || c[k].1 - c[k].0 <= 1)
            &&& forall|j: int, k: int|
                0 <= j < k < c.len() ==> (#[trigger] c[j]).1 <= (#[trigger] c[k]).0
            &&& forall|i: int| 0 <= i < s ==> #[trigger] in_a_run(c, i)
        }),
    decreases n,
{
    if n > 0 {
        lemma_cut_after((n - 1) as nat, max);
        let (c, s) = cut_after((n - 1) as nat, max);
        let (d, t) = cut_after(n, max);
        assert forall|i: int| 0 <= i < t implies #[trigger] in_a_run(d, i) by {
            if i < s {
                assert(in_a_run(c, i));
                let k = choose|k: int| 0 <= k < c.len() && (#[trigger] c[k]).0 <= i < c[k].1;
                assert(d[k] == c[k]);
            } else {
                assert(d[d.len() - 1] == (s, n - 1));
            }
        }
    }
}

/// Every triangle of a simplified surface lies in exactly one chunk.
pub proof fn law_runs_cover_once(n: nat, max: int, i: int)
    requires
        0 <= i < n,
    ensures
        exists|k: int|
            0 <= k < cuts(n, max).len() && (#[trigger] cuts(n, max)[k]).0 <= i < cuts(n, max)[k].1,
        forall|j: int, k: int|
            0 <= j < cuts(n, max).len() && 0 <= k < cuts(n, max).len() && (#[trigger] cuts(
                n,
                max,
            )[j]).0 <= i < cuts(n, max)[j].1 && (#[trigger] cuts(n, max)[k]).0 <= i < cuts(n, max)[k].1
                ==> j == k,
{
    lemma_cut_after(n, max);
    let (c, s) = cut_after(n, max);
    let d = cuts(n, max);
    if i < s {
        assert(in_a_run(c, i));
        let k = choose|k: int| 0 <= k < c.len() && (#[trigger] c[k]).0 <= i < c[k].1;
        assert(d[k] == c[k]);
    } else {
        assert(d[d.len() - 1] == (s, n as int));
    }
    assert forall|j: int, k: int| 0 <= j < k < d.len() implies (#[trigger] d[j]).1
        <= (#[trigger] d[k]).0 by {
        assert(d[j] == c[j]);
        if k < c.len() {
            assert(d[k] == c[k]);
        }
    }
}

/// No chunk of a simplified surface has more vertices than asked for, or than
/// the three of one triangle.
pub proof fn law_run_size(n: nat, max: int, k: int)
    requires
        0 <= k < cuts(n, max).len(),
    ensures
        ({
            let size = 3 * (cuts(n, max)[k].1 - cuts(n, max)[k].0);
            0 <= size && (size <= max || size <= 3)
        }),
{
    lemma_cut_after(n, max);
    let (c, s) = cut_after(n, max);
    if k < c.len() {
        assert(cuts(n, max)[k] == c[k]);
    }
}

} // verus!
