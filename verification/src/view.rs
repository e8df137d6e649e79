//! The 3D view: when it is uploaded anew, in what colours, from how far away,
//! and when a picture of it is taken.

use vstd::prelude::*;
use crate::number;
use crate::number::{Op, Real};
use crate::state::AppState;
use crate::tiles::{TileKind, TileMesh};

verus! {

/// Below this the off-screen target is pointless.
pub const MIN_SIZE: u32 = 16;

/// Beyond this the off-screen target costs more than the detail is worth.
pub const MAX_SIZE: u32 = 2048;

/// Ignore sub-threshold size changes so dragging a splitter does not reallocate
/// a texture every frame.
pub const RESIZE_THRESHOLD: u32 = 8;

/// Tints for telling chunks apart.
pub const CHUNK_TINTS: usize = 6;

/// 0.82: the fraction of the frame the model should fill once framed.
pub const FILL: u32 = 0x3f51_eb85;

/// 0.05: the change in size that moves the camera.
pub const REFRAME: u32 = 0x3d4c_cccd;

/// 16.
pub const MIN_SIDE: u32 = 0x4180_0000;

// ---------------------------------------------------------------------------
// Size
// ---------------------------------------------------------------------------

pub open spec fn within(n: u32) -> u32 {
    if n < MIN_SIZE {
        MIN_SIZE
    } else if n > MAX_SIZE {
        MAX_SIZE
    } else {
        n
    }
}

pub open spec fn apart(a: u32, b: u32) -> int {
    if a >= b {
        a - b
    } else {
        b - a
    }
}

/// The size the off-screen target is to get, if it is to change.
pub open spec fn resized(desired: (u32, u32), size: (u32, u32)) -> Option<(u32, u32)> {
    let d = (within(desired.0), within(desired.1));
    if apart(d.0, size.0) < RESIZE_THRESHOLD && apart(d.1, size.1) < RESIZE_THRESHOLD {
        None
    } else {
        Some(d)
    }
}

fn limit(n: u32) -> (r: u32)
    ensures
        r == within(n),
{
    if n < MIN_SIZE {
        MIN_SIZE
    } else if n > MAX_SIZE {
        MAX_SIZE
    } else {
        n
    }
}

fn gap(a: u32, b: u32) -> (r: u32)
    ensures
        r == apart(a, b),
{
    if a >= b {
        a - b
    } else {
        b - a
    }
}

/// Resize the off-screen target to match the panel showing it.
pub fn apply_size(desired: (u32, u32), size: (u32, u32)) -> (r: Option<(u32, u32)>)
    ensures
        r == resized(desired, size),
{
    let w: u32 = limit(desired.0);
    let h: u32 = limit(desired.1);
    if gap(w, size.0) < RESIZE_THRESHOLD && gap(h, size.1) < RESIZE_THRESHOLD {
        None
    } else {
        Some((w, h))
    }
}

/// A side in points, in whole physical pixels.
pub open spec fn pixels<F: Fn(Op, Real, Real) -> Real>(f: F, points: Real, scale: Real) -> int {
    let n = number::times(f, points, scale).larger(Real { bits: MIN_SIDE }).floored();
    if n > u32::MAX {
        u32::MAX as int
    } else {
        n
    }
}

/// A side in points, in whole physical pixels, at least 16.
pub fn physical<F: Fn(Op, Real, Real) -> Real>(points: Real, scale: Real, arith: &F) -> (r: u32)
    requires
        number::steady(*arith),
    ensures
        r == pixels(*arith, points, scale),
{
    let n: u64 = number::ask(arith, Op::Times, points, scale).max(Real { bits: MIN_SIDE }).to_int();
    if n > u32::MAX as u64 {
        u32::MAX
    } else {
        n as u32
    }
}

// ---------------------------------------------------------------------------
// Chunks
// ---------------------------------------------------------------------------

/// What a chunk is painted with.
#[derive(Debug, Clone, Copy, PartialEq, Eq, Structural)]
pub enum Material {
    /// Plaster white.
    Plain,
    /// The bezel's own shade.
    Frame,
    /// One of the tints for telling chunks apart.
    Tint(usize),
    /// The photo.
    Photo,
}

/// Surface chunks among the first `n`.
pub open spec fn surfaces(tiles: Seq<TileMesh>, n: nat) -> nat
    decreases n,
{
    if n == 0 {
        0
    } else {
        surfaces(tiles, (n - 1) as nat) + (if tiles[n - 1].kind == TileKind::Surface {
            1nat
        } else {
            0nat
        })
    }
}

/// What each chunk is painted with. With no bezel the sides and back plate are
/// not a frame, they are the body of the plaque; giving them their own shade
/// would draw a border that the print does not have.
pub open spec fn painted(
    tiles: Seq<TileMesh>,
    i: int,
    show_tiles: bool,
    framed: bool,
    photo: bool,
) -> Material {
    match tiles[i].kind {
        TileKind::Frame => if framed {
            Material::Frame
        } else {
            Material::Plain
        },
        TileKind::Surface => if show_tiles {
            Material::Tint((surfaces(tiles, i as nat) % 6) as usize)
        } else if photo {
            Material::Photo
        } else {
            Material::Plain
        },
    }
}

/// What each chunk is painted with.
pub fn materials(tiles: &Vec<TileMesh>, show_tiles: bool, framed: bool, photo: bool) -> (r: Vec<
    Material,
>)
    ensures
        r@ == Seq::new(
            tiles@.len(),
            |i: int| painted(tiles@, i, show_tiles, framed, photo),
        ),
{
    let mut r: Vec<Material> = Vec::new();
    let mut seen: usize = 0;
    let mut i: usize = 0;
    while i < tiles.len()
        invariant
            i <= tiles@.len(),
            seen <= i,
            seen == surfaces(tiles@, i as nat),
            r@ == Seq::new(i as nat, |i: int| painted(tiles@, i, show_tiles, framed, photo)),
        decreases tiles@.len() - i,
    {
        let m = match tiles[i].kind {
            TileKind::Frame => if framed {
                Material::Frame
            } else {
                Material::Plain
            },
            TileKind::Surface => {
                let k: usize = seen % CHUNK_TINTS;
                seen = seen + 1;
                if show_tiles {
                    Material::Tint(k)
                } else if photo {
                    Material::Photo
                } else {
                    Material::Plain
                }
            },
        };
        r.push(m);
        i = i + 1;
        assert(r@ =~= Seq::new(i as nat, |i: int| painted(tiles@, i, show_tiles, framed, photo)));
    }
    r
}

/// A number that changes with everything the chunks on screen depend on.
pub open spec fn key_of(a: AppState) -> int {
    a.generation * 4 + (if a.show_tiles {
        2int
    } else {
        0
    }) + (if a.params.has_frame() {
        1int
    } else {
        0
    })
}

/// A number that changes with everything the chunks on screen depend on: the
/// build, whether its chunks are told apart, and whether there is a bezel.
pub fn view_key(state: &AppState) -> (r: u64)
    requires
        state.generation < 0x4000_0000_0000_0000,
    ensures
        r == key_of(*state),
{
    let tinted: u64 = if state.show_tiles {
        2
    } else {
        0
    };
    let framed: u64 = if state.params.framed() {
        1
    } else {
        0
    };
    state.generation * 4 + tinted + framed
}

/// Whether the chunks have to be replaced: there is a build, and it, or the
/// photo on it, is not what is on screen.
pub fn chunks_stale(state: &AppState, last_key: u64, photo_changed: bool) -> (r: bool)
    requires
        state.generation < 0x4000_0000_0000_0000,
    ensures
        r == (state.built is Some && (last_key != key_of(*state) || photo_changed)),
{
    state.built.is_some() && (last_key != view_key(state) || photo_changed)
}

/// Two states with the same key show the same chunks the same way.
pub proof fn law_key_tells_views_apart(a: AppState, b: AppState)
    ensures
        key_of(a) == key_of(b) <==> a.generation == b.generation && a.show_tiles == b.show_tiles
            && a.params.has_frame() == b.params.has_frame(),
{
}

// ---------------------------------------------------------------------------
// Camera
// ---------------------------------------------------------------------------

/// Where the camera stands.
#[derive(Debug, Clone, Copy, PartialEq, Eq, Structural)]
pub struct Framing {
    /// Half the diagonal of the model.
    pub radius: Real,
    /// The depth of its middle.
    pub centre_z: Real,
    /// How far away a sphere of that radius fills the frame as it should.
    pub distance: Real,
}

pub open spec fn half_diagonal<F: Fn(Op, Real, Real) -> Real>(f: F, e: [Real; 3]) -> Real {
    let squares = number::plus(
        f,
        number::plus(f, number::times(f, e[0], e[0]), number::times(f, e[1], e[1])),
        number::times(f, e[2], e[2]),
    );
    number::times(f, Real { bits: number::HALF }, number::root(f, squares))
}

/// The new place of the camera, if the model's size has really changed.
/// Refitting on every rebuild would yank the view back while someone is orbiting
/// it.
pub open spec fn framing_of<F: Fn(Op, Real, Real) -> Real>(
    f: F,
    extents: [Real; 3],
    last: Real,
    tangent: Real,
) -> Option<Framing> {
    let radius = half_diagonal(f, extents);
    let slack = number::times(
        f,
        Real { bits: REFRAME },
        radius.larger(Real { bits: number::ONE }),
    );
    if slack.below(number::minus(f, radius, last).unsigned()) {
        Some(
            Framing {
                radius,
                centre_z: number::times(f, (Real { bits: number::HALF }).opposite(), extents[2]),
                distance: number::over(
                    f,
                    number::over(f, radius, tangent),
                    Real { bits: FILL },
                ),
            },
        )
    } else {
        None
    }
}

/// The new place of the camera, if the model's size has really changed from the
/// radius that was last framed. `tangent` is that of half the field of view.
pub fn reframe<F: Fn(Op, Real, Real) -> Real>(
    extents: [Real; 3],
    last: Real,
    tangent: Real,
    arith: &F,
) -> (r: Option<Framing>)
    requires
        number::steady(*arith),
    ensures
        r == framing_of(*arith, extents, last, tangent),
{
    let half = Real { bits: number::HALF };
    let xx: Real = number::ask(arith, Op::Times, extents[0], extents[0]);
    let yy: Real = number::ask(arith, Op::Times, extents[1], extents[1]);
    let zz: Real = number::ask(arith, Op::Times, extents[2], extents[2]);
    let xy: Real = number::ask(arith, Op::Plus, xx, yy);
    let squares: Real = number::ask(arith, Op::Plus, xy, zz);
    let diagonal: Real = number::ask(arith, Op::Root, squares, squares);
    let radius: Real = number::ask(arith, Op::Times, half, diagonal);
    let slack: Real = number::ask(
        arith,
        Op::Times,
        Real { bits: REFRAME },
        radius.max(Real { bits: number::ONE }),
    );
    let moved: Real = number::ask(arith, Op::Minus, radius, last).abs();
    if slack.lt(moved) {
        let near: Real = number::ask(arith, Op::Over, radius, tangent);
        Some(
            Framing {
                radius,
                centre_z: number::ask(arith, Op::Times, half.neg(), extents[2]),
                distance: number::ask(arith, Op::Over, near, Real { bits: FILL }),
            },
        )
    } else {
        None
    }
}

// ---------------------------------------------------------------------------
// Taking a picture
// ---------------------------------------------------------------------------

/// Frames to let pass before the shot: a build is started late and runs
/// elsewhere, so a shot taken too early catches an empty view.
pub const WARMUP: u32 = 90;

/// Frames to give the save before the application is closed.
pub const LINGER: u32 = 10;

/// One picture, and then the end.
#[derive(Debug, Clone, Copy, PartialEq, Eq, Structural)]
pub struct Shot {
    pub frame: u32,
    /// The frame in which the picture was taken.
    pub taken: Option<u32>,
}

#[derive(Debug, Clone, Copy, PartialEq, Eq, Structural)]
pub enum ShotStep {
    Wait,
    Save,
    Quit,
}

impl Shot {
    pub fn new() -> (r: Self)
        ensures
            r == (Shot { frame: 0, taken: None }),
    {
        Shot { frame: 0, taken: None }
    }

    /// The picture has been taken in a frame that has passed, when the warmup
    /// was over.
    pub open spec fn wf(self) -> bool {
        self.taken matches Some(t) ==> WARMUP <= t <= self.frame
    }

    /// One frame further. The picture is taken once the warmup is over and there
    /// is something on screen; the end comes when the save has had time to land.
    pub fn capture(&mut self, on_screen: bool) -> (r: ShotStep)
        requires
            old(self).frame < u32::MAX,
            old(self).wf(),
        ensures
            final(self).wf(),
            final(self).frame == old(self).frame + 1,
            r == (match old(self).taken {
                None => if final(self).frame >= WARMUP && on_screen {
                    ShotStep::Save
                } else {
                    ShotStep::Wait
                },
                Some(t) => if final(self).frame > t + LINGER {
                    ShotStep::Quit
                } else {
                    ShotStep::Wait
                },
            }),
            final(self).taken == (if r == ShotStep::Save {
                Some(final(self).frame)
            } else {
                old(self).taken
            }),
    {
        self.frame = self.frame + 1;
        match self.taken {
            None => if self.frame >= WARMUP && on_screen {
                self.taken = Some(self.frame);
                ShotStep::Save
            } else {
                ShotStep::Wait
            },
            Some(t) => if self.frame - t > LINGER {
                ShotStep::Quit
            } else {
                ShotStep::Wait
            },
        }
    }
}

} // verus!
