//! A synthetic depth map, so there is something to show before a file is opened.
//!
//! Fractal terrain with a central massif: recognisably a height field, with
//! enough fine detail to show what the median filter does and a broad dome to
//! show what the near/far window does.

use vstd::prelude::*;
use crate::depth;
use crate::depth::{BitDepth, Colour, DepthMap};
use crate::error::Error;
use crate::grid;
use crate::number;
use crate::number::{Op, Real};

verus! {

// ---------------------------------------------------------------------------
// Numbers, by their bits
// ---------------------------------------------------------------------------

/// 3.
pub const THREE: u32 = 0x4040_0000;

/// 4.
pub const FOUR: u32 = 0x4080_0000;

/// 11.3.
pub const SHIFT_X: u32 = 0x4134_cccd;

/// 4.7.
pub const SHIFT_Y: u32 = 0x4096_6666;

/// 2.15.
pub const DOME_X: u32 = 0x4009_999a;

/// 2.6.
pub const DOME_Y: u32 = 0x4026_6666;

/// 0.72.
pub const SMOOTH_SHARE: u32 = 0x3f38_51ec;

/// 0.28.
pub const DETAIL_SHARE: u32 = 0x3e8f_5c29;

/// 0.045.
pub const BLOCK_NOISE: u32 = 0x3d38_51ec;

/// 0.012.
pub const PIXEL_NOISE: u32 = 0x3c44_9ba6;

/// 255.
pub const FULL_8: u32 = 0x437f_0000;

/// 65535.
pub const FULL_16: u32 = 0x477f_ff00;

// ---------------------------------------------------------------------------
// Noise
// ---------------------------------------------------------------------------

/// A value hash. It only has to be stable, so the sample looks the same
/// everywhere.
pub open spec fn scrambled(i: i32, j: i32) -> u32 {
    let n = i.wrapping_mul(374_761_393).wrapping_add(j.wrapping_mul(668_265_263));
    let m = (n ^ (n >> 13)).wrapping_mul(1_274_126_177);
    (m ^ (m >> 16)) as u32
}

/// The hash as a fraction.
pub open spec fn hashed<F: Fn(Op, Real, Real) -> Real>(f: F, i: i32, j: i32) -> Real {
    number::over(f, number::whole(scrambled(i, j) as nat), number::whole(u32::MAX as nat))
}

fn hash<F: Fn(Op, Real, Real) -> Real>(i: i32, j: i32, arith: &F) -> (r: Real)
    requires
        number::steady(*arith),
    ensures
        r == hashed(*arith, i, j),
{
    let n: i32 = i.wrapping_mul(374_761_393).wrapping_add(j.wrapping_mul(668_265_263));
    let m: i32 = (n ^ (n >> 13)).wrapping_mul(1_274_126_177);
    let v: u32 = #[verifier::truncate]
    ((m ^ (m >> 16)) as u32);
    number::ask(
        arith,
        Op::Over,
        Real::from_int(v as u64),
        Real::from_int(u32::MAX as u64),
    )
}

/// Smoothstep.
pub open spec fn eased<F: Fn(Op, Real, Real) -> Real>(f: F, t: Real) -> Real {
    number::times(
        f,
        number::times(f, t, t),
        number::minus(f, Real { bits: THREE }, number::times(f, Real { bits: number::TWO }, t)),
    )
}

fn ease<F: Fn(Op, Real, Real) -> Real>(t: Real, arith: &F) -> (r: Real)
    requires
        number::steady(*arith),
    ensures
        r == eased(*arith, t),
{
    let square: Real = number::ask(arith, Op::Times, t, t);
    let twice: Real = number::ask(arith, Op::Times, Real { bits: number::TWO }, t);
    let rest: Real = number::ask(arith, Op::Minus, Real { bits: THREE }, twice);
    number::ask(arith, Op::Times, square, rest)
}

/// Value noise with smoothstep interpolation.
pub open spec fn noise<F: Fn(Op, Real, Real) -> Real>(f: F, x: Real, y: Real) -> Real {
    let one = Real { bits: number::ONE };
    let (fx, fy) = (number::floor(f, x), number::floor(f, y));
    let (i, j) = (fx.truncated() as i32, fy.truncated() as i32);
    let (i1, j1) = (i.wrapping_add(1), j.wrapping_add(1));
    let u = eased(f, number::minus(f, x, fx));
    let v = eased(f, number::minus(f, y, fy));
    let (u1, v1) = (number::minus(f, one, u), number::minus(f, one, v));
    number::plus(
        f,
        number::plus(
            f,
            number::plus(
                f,
                number::times(f, number::times(f, hashed(f, i, j), u1), v1),
                number::times(f, number::times(f, hashed(f, i1, j), u), v1),
            ),
            number::times(f, number::times(f, hashed(f, i, j1), u1), v),
        ),
        number::times(f, number::times(f, hashed(f, i1, j1), u), v),
    )
}

fn value_noise<F: Fn(Op, Real, Real) -> Real>(x: Real, y: Real, arith: &F) -> (r: Real)
    requires
        number::steady(*arith),
    ensures
        r == noise(*arith, x, y),
{
    let one = Real { bits: number::ONE };
    let fx: Real = number::ask(arith, Op::Floor, x, x);
    let fy: Real = number::ask(arith, Op::Floor, y, y);
    let i: i32 = fx.to_i32();
    let j: i32 = fy.to_i32();
    let i1: i32 = i.wrapping_add(1);
    let j1: i32 = j.wrapping_add(1);
    let u: Real = ease(number::ask(arith, Op::Minus, x, fx), arith);
    let v: Real = ease(number::ask(arith, Op::Minus, y, fy), arith);
    let u1: Real = number::ask(arith, Op::Minus, one, u);
    let v1: Real = number::ask(arith, Op::Minus, one, v);
    let a: Real = corner(hash(i, j, arith), u1, v1, arith);
    let b: Real = corner(hash(i1, j, arith), u, v1, arith);
    let c: Real = corner(hash(i, j1, arith), u1, v, arith);
    let d: Real = corner(hash(i1, j1, arith), u, v, arith);
    let ab: Real = number::ask(arith, Op::Plus, a, b);
    let abc: Real = number::ask(arith, Op::Plus, ab, c);
    number::ask(arith, Op::Plus, abc, d)
}

fn corner<F: Fn(Op, Real, Real) -> Real>(value: Real, u: Real, v: Real, arith: &F) -> (r: Real)
    requires
        number::steady(*arith),
    ensures
        r == number::times(*arith, number::times(*arith, value, u), v),
{
    let a: Real = number::ask(arith, Op::Times, value, u);
    number::ask(arith, Op::Times, a, v)
}

// ---------------------------------------------------------------------------
// Terrain
// ---------------------------------------------------------------------------

/// `n` octaves of detail, and the amplitude and frequency of the next.
pub open spec fn octaves<F: Fn(Op, Real, Real) -> Real>(f: F, u: Real, v: Real, n: nat) -> (
    Real,
    Real,
    Real,
)
    decreases n,
{
    if n == 0 {
        (Real { bits: number::ZERO }, Real { bits: number::HALF }, Real { bits: FOUR })
    } else {
        let (detail, amplitude, frequency) = octaves(f, u, v, (n - 1) as nat);
        let x = number::plus(f, number::times(f, u, frequency), Real { bits: SHIFT_X });
        let y = number::plus(f, number::times(f, v, frequency), Real { bits: SHIFT_Y });
        (
            number::plus(f, detail, number::times(f, amplitude, noise(f, x, y))),
            number::times(f, amplitude, Real { bits: number::HALF }),
            number::times(f, frequency, Real { bits: number::TWO }),
        )
    }
}

fn detail_at<F: Fn(Op, Real, Real) -> Real>(u: Real, v: Real, arith: &F) -> (r: Real)
    requires
        number::steady(*arith),
    ensures
        r == octaves(*arith, u, v, 5).0,
{
    let mut detail = Real { bits: number::ZERO };
    let mut amplitude = Real { bits: number::HALF };
    let mut frequency = Real { bits: FOUR };
    let mut n: usize = 0;
    while n < 5
        invariant
            number::steady(*arith),
            n <= 5,
            octaves(*arith, u, v, n as nat) == (detail, amplitude, frequency),
        decreases 5 - n,
    {
        let ux: Real = number::ask(arith, Op::Times, u, frequency);
        let x: Real = number::ask(arith, Op::Plus, ux, Real { bits: SHIFT_X });
        let vy: Real = number::ask(arith, Op::Times, v, frequency);
        let y: Real = number::ask(arith, Op::Plus, vy, Real { bits: SHIFT_Y });
        let more: Real = number::ask(arith, Op::Times, amplitude, value_noise(x, y, arith));
        detail = number::ask(arith, Op::Plus, detail, more);
        amplitude = number::ask(arith, Op::Times, amplitude, Real { bits: number::HALF });
        frequency = number::ask(arith, Op::Times, frequency, Real { bits: number::TWO });
        n = n + 1;
    }
    detail
}

/// A number brought between zero and one.
pub open spec fn unit(v: Real) -> Real {
    v.between(Real { bits: number::ZERO }, Real { bits: number::ONE })
}

fn to_unit(v: Real) -> (r: Real)
    ensures
        r == unit(v),
{
    v.clamp(Real { bits: number::ZERO }, Real { bits: number::ONE })
}

/// One less something.
pub open spec fn complement<F: Fn(Op, Real, Real) -> Real>(f: F, v: Real) -> Real {
    number::minus(f, Real { bits: number::ONE }, v)
}

/// The dome that the detail rides on.
pub open spec fn dome<F: Fn(Op, Real, Real) -> Real>(f: F, u: Real, v: Real) -> Real {
    let half = Real { bits: number::HALF };
    let dx = number::times(f, number::minus(f, u, half), Real { bits: DOME_X });
    let dy = number::times(f, number::minus(f, v, half), Real { bits: DOME_Y });
    let reach = number::plus(f, number::times(f, dx, dx), number::times(f, dy, dy));
    number::root(f, unit(complement(f, reach)))
}

/// The field at normalised coordinates. Detail rides on the dome rather than
/// the background, so the plate stays flat. A bright pixel is far away, so the
/// massif is the dark part.
pub open spec fn terrain_at<F: Fn(Op, Real, Real) -> Real>(f: F, u: Real, v: Real) -> Real {
    let texture = number::plus(
        f,
        Real { bits: SMOOTH_SHARE },
        number::times(f, Real { bits: DETAIL_SHARE }, octaves(f, u, v, 5).0),
    );
    complement(f, unit(number::times(f, dome(f, u, v), texture)))
}

fn terrain<F: Fn(Op, Real, Real) -> Real>(u: Real, v: Real, arith: &F) -> (r: Real)
    requires
        number::steady(*arith),
    ensures
        r == terrain_at(*arith, u, v),
{
    let one = Real { bits: number::ONE };
    let half = Real { bits: number::HALF };
    let detail: Real = detail_at(u, v, arith);
    let left: Real = number::ask(arith, Op::Minus, u, half);
    let dx: Real = number::ask(arith, Op::Times, left, Real { bits: DOME_X });
    let up: Real = number::ask(arith, Op::Minus, v, half);
    let dy: Real = number::ask(arith, Op::Times, up, Real { bits: DOME_Y });
    let xx: Real = number::ask(arith, Op::Times, dx, dx);
    let yy: Real = number::ask(arith, Op::Times, dy, dy);
    let reach: Real = number::ask(arith, Op::Plus, xx, yy);
    let inside: Real = to_unit(number::ask(arith, Op::Minus, one, reach));
    let dome: Real = number::ask(arith, Op::Root, inside, inside);
    let rough: Real = number::ask(arith, Op::Times, Real { bits: DETAIL_SHARE }, detail);
    let texture: Real = number::ask(arith, Op::Plus, Real { bits: SMOOTH_SHARE }, rough);
    let height: Real = to_unit(number::ask(arith, Op::Times, dome, texture));
    number::ask(arith, Op::Minus, one, height)
}

// ---------------------------------------------------------------------------
// Depth maps
// ---------------------------------------------------------------------------

/// Noise about zero.
pub open spec fn ringing<F: Fn(Op, Real, Real) -> Real>(f: F, i: i32, j: i32, scale: u32) -> Real {
    number::times(
        f,
        number::minus(f, hashed(f, i, j), Real { bits: number::HALF }),
        Real { bits: scale },
    )
}

fn ring<F: Fn(Op, Real, Real) -> Real>(i: i32, j: i32, scale: u32, arith: &F) -> (r: Real)
    requires
        number::steady(*arith),
    ensures
        r == ringing(*arith, i, j, scale),
{
    let about: Real = number::ask(
        arith,
        Op::Minus,
        hash(i, j, arith),
        Real { bits: number::HALF },
    );
    number::ask(arith, Op::Times, about, Real { bits: scale })
}

/// The nearest of 256 levels.
pub open spec fn levelled<F: Fn(Op, Real, Real) -> Real>(f: F, v: Real) -> Real {
    let full = Real { bits: FULL_8 };
    number::over(f, number::round(f, number::times(f, unit(v), full)), full)
}

/// A pixel of the sample: the terrain there, and for the 8-bit variant the 8×8
/// block ringing that compression does to a depth map, on 256 levels.
pub open spec fn pixel<F: Fn(Op, Real, Real) -> Real>(
    f: F,
    w: u32,
    h: u32,
    bits: BitDepth,
    i: int,
    j: int,
) -> Real {
    let u = number::over(f, number::whole(i as nat), number::whole((w - 1) as nat));
    let v = number::over(f, number::whole(j as nat), number::whole((h - 1) as nat));
    let value = terrain_at(f, u, v);
    if bits == BitDepth::Eight {
        let blocks = number::plus(
            f,
            value,
            ringing(f, (i / 8 + 91) as i32, (j / 8 + 17) as i32, BLOCK_NOISE),
        );
        levelled(f, number::plus(f, blocks, ringing(f, i as i32, j as i32, PIXEL_NOISE)))
    } else {
        value
    }
}

fn pixel_at<F: Fn(Op, Real, Real) -> Real>(
    w: u32,
    h: u32,
    bits: BitDepth,
    i: u32,
    j: u32,
    arith: &F,
) -> (r: Real)
    requires
        number::steady(*arith),
        i < w <= 0x8000_0000,
        j < h <= 0x8000_0000,
    ensures
        r == pixel(*arith, w, h, bits, i as int, j as int),
{
    let u: Real = number::ask(
        arith,
        Op::Over,
        Real::from_int(i as u64),
        Real::from_int((w - 1) as u64),
    );
    let v: Real = number::ask(
        arith,
        Op::Over,
        Real::from_int(j as u64),
        Real::from_int((h - 1) as u64),
    );
    let value: Real = terrain(u, v, arith);
    match bits {
        BitDepth::Eight => {
            let block: Real = ring(
                (i / 8) as i32 + 91,
                (j / 8) as i32 + 17,
                BLOCK_NOISE,
                arith,
            );
            let blocks: Real = number::ask(arith, Op::Plus, value, block);
            let grain: Real = ring(i as i32, j as i32, PIXEL_NOISE, arith);
            let noisy: Real = number::ask(arith, Op::Plus, blocks, grain);
            let full = Real { bits: FULL_8 };
            let scaled: Real = number::ask(arith, Op::Times, to_unit(noisy), full);
            let level: Real = number::ask(arith, Op::Round, scaled, scaled);
            number::ask(arith, Op::Over, level, full)
        },
        BitDepth::Sixteen => value,
    }
}

/// A side of at least two pixels.
pub open spec fn side(n: u32) -> u32 {
    if n < 2 {
        2
    } else {
        n
    }
}

/// A 16-bit sample of the given size.
pub fn depth_map<F: Fn(Op, Real, Real) -> Real>(width: u32, height: u32, arith: &F) -> (r: DepthMap)
    requires
        number::steady(*arith),
        side(width) * side(height) <= u32::MAX,
    ensures
        r.wf(),
        r.width == side(width),
        r.height == side(height),
        r.bits == BitDepth::Sixteen,
        !r.was_colour,
        forall|i: int, j: int|
            0 <= i < r.width && 0 <= j < r.height ==> #[trigger] r.sample(i, j) == pixel(
                *arith,
                r.width,
                r.height,
                BitDepth::Sixteen,
                i,
                j,
            ),
{
    depth_map_with(width, height, BitDepth::Sixteen, arith)
}

/// A sample quantised to `bits`, for exercising the 8-bit path.
pub fn depth_map_with<F: Fn(Op, Real, Real) -> Real>(
    width: u32,
    height: u32,
    bits: BitDepth,
    arith: &F,
) -> (r: DepthMap)
    requires
        number::steady(*arith),
        side(width) * side(height) <= u32::MAX,
    ensures
        r.wf(),
        r.width == side(width),
        r.height == side(height),
        r.bits == bits,
        !r.was_colour,
        forall|i: int, j: int|
            0 <= i < r.width && 0 <= j < r.height ==> #[trigger] r.sample(i, j) == pixel(
                *arith,
                r.width,
                r.height,
                bits,
                i,
                j,
            ),
{
    let w: u32 = if width < 2 {
        2
    } else {
        width
    };
    let h: u32 = if height < 2 {
        2
    } else {
        height
    };
    proof {
        assert(w <= 0x8000_0000 && h <= 0x8000_0000) by (nonlinear_arith)
            requires
                w >= 2,
                h >= 2,
                w * h <= u32::MAX,
        ;
    }
    let mut data: Vec<Real> = Vec::new();
    let mut j: u32 = 0;
    while j < h
        invariant
            number::steady(*arith),
            2 <= w <= 0x8000_0000,
            2 <= h <= 0x8000_0000,
            j <= h,
            data@ == Seq::new(
                (j * w) as nat,
                |k: int| pixel(*arith, w, h, bits, k % w as int, k / w as int),
            ),
        decreases h - j,
    {
        let mut i: u32 = 0;
        while i < w
            invariant
                number::steady(*arith),
                2 <= w <= 0x8000_0000,
                2 <= h <= 0x8000_0000,
                j < h,
                i <= w,
                data@ == Seq::new(
                    (j * w + i) as nat,
                    |k: int| pixel(*arith, w, h, bits, k % w as int, k / w as int),
                ),
            decreases w - i,
        {
            proof {
                grid::lemma_index(w as int, h as int, i as int, j as int);
            }
            data.push(pixel_at(w, h, bits, i, j, arith));
            i = i + 1;
            assert(data@ =~= Seq::new(
                (j * w + i) as nat,
                |k: int| pixel(*arith, w, h, bits, k % w as int, k / w as int),
            ));
        }
        proof {
            assert((j + 1) * w == j * w + w) by (nonlinear_arith);
        }
        j = j + 1;
    }
    let r = DepthMap { width: w, height: h, bits, was_colour: false, data };
    proof {
        assert(h * w == w * h) by (nonlinear_arith);
        assert forall|i: int, j: int| 0 <= i < r.width && 0 <= j < r.height implies #[trigger] r.sample(
            i,
            j,
        ) == pixel(*arith, w, h, bits, i, j) by {
            grid::lemma_index(w as int, h as int, i, j);
            assert(j * w + i < h * w) by (nonlinear_arith)
                requires
                    0 <= j < h,
                    0 <= i < w,
            ;
        }
    }
    r
}

// ---------------------------------------------------------------------------
// PNG
// ---------------------------------------------------------------------------

/// What `DynamicImage::write_to` makes of 16-bit grey samples in the PNG format:
/// the file, or nothing.
pub uninterp spec fn png16(width: u32, height: u32, samples: Seq<u16>) -> Option<Seq<u8>>;

/// What `DynamicImage::write_to` makes of 8-bit grey samples in the PNG format:
/// the file, or nothing.
pub uninterp spec fn png8(width: u32, height: u32, samples: Seq<u8>) -> Option<Seq<u8>>;

/// Calls `DynamicImage::write_to` on a 16-bit grey image, in the PNG format and
/// into memory. Trusted: the outcome depends on the samples alone, an image of
/// up to 2^27 pixels is encoded, and `image::load_from_memory` reads the very
/// same samples back from it. Larger images may exceed what the decoder
/// allocates, so nothing is said of reading them.
#[verifier::external_body]
fn encode_grey16(width: u32, height: u32, samples: Vec<u16>) -> (r: Result<
    Vec<u8>,
    image::ImageError,
>)
    requires
        width >= 1,
        height >= 1,
        samples@.len() == width * height,
    ensures
        r is Ok <==> png16(width, height, samples@) is Some,
        r matches Ok(b) ==> png16(width, height, samples@) == Some(b@),
        r is Ok <== width * height <= 0x800_0000,
        r matches Ok(b) ==> (width * height <= 0x800_0000 ==> depth::holds(
            b@,
            width,
            height,
            Colour::L16,
            samples@,
        )),
{
    let image = image::ImageBuffer::from_raw(width, height, samples).expect("a sample per pixel");
    let mut bytes = Vec::new();
    image::DynamicImage::ImageLuma16(image).write_to(
        &mut std::io::Cursor::new(&mut bytes),
        image::ImageFormat::Png,
    )?;
    Ok(bytes)
}

/// Calls `DynamicImage::write_to` on an 8-bit grey image, in the PNG format and
/// into memory. Trusted: the outcome depends on the samples alone, an image of
/// up to 2^27 pixels is encoded, and `image::load_from_memory` reads the same
/// samples back from it, which `DynamicImage::to_luma16` widens by repeating
/// each byte. Larger images may exceed what the decoder allocates, so nothing is
/// said of reading them.
#[verifier::external_body]
fn encode_grey8(width: u32, height: u32, samples: Vec<u8>) -> (r: Result<
    Vec<u8>,
    image::ImageError,
>)
    requires
        width >= 1,
        height >= 1,
        samples@.len() == width * height,
    ensures
        r is Ok <==> png8(width, height, samples@) is Some,
        r matches Ok(b) ==> png8(width, height, samples@) == Some(b@),
        r is Ok <== width * height <= 0x800_0000,
        r matches Ok(b) ==> (width * height <= 0x800_0000 ==> depth::holds(
            b@,
            width,
            height,
            Colour::L8,
            widened(samples@),
        )),
{
    let image = image::ImageBuffer::from_raw(width, height, samples).expect("a sample per pixel");
    let mut bytes = Vec::new();
    image::DynamicImage::ImageLuma8(image).write_to(
        &mut std::io::Cursor::new(&mut bytes),
        image::ImageFormat::Png,
    )?;
    Ok(bytes)
}

/// 8-bit samples on 16 bits: each byte twice.
pub open spec fn widened(s: Seq<u8>) -> Seq<u16> {
    Seq::new(s.len(), |k: int| (s[k] * 257) as u16)
}

/// The nearest level out of `top + 1`.
pub open spec fn level_of<F: Fn(Op, Real, Real) -> Real>(f: F, v: Real, full: u32, top: int) -> int {
    let n = number::round(f, number::times(f, unit(v), Real { bits: full })).floored();
    if n > top {
        top
    } else {
        n
    }
}

fn level<F: Fn(Op, Real, Real) -> Real>(v: Real, full: u32, top: u64, arith: &F) -> (r: u64)
    requires
        number::steady(*arith),
    ensures
        r == level_of(*arith, v, full, top as int),
        r <= top,
{
    let scaled: Real = number::ask(arith, Op::Times, to_unit(v), Real { bits: full });
    let n: u64 = number::ask(arith, Op::Round, scaled, scaled).to_int();
    if n > top {
        top
    } else {
        n
    }
}

/// The samples of a depth map on 65536 levels.
pub open spec fn samples16<F: Fn(Op, Real, Real) -> Real>(f: F, data: Seq<Real>) -> Seq<u16> {
    Seq::new(data.len(), |k: int| level_of(f, data[k], FULL_16, 0xffff) as u16)
}

/// The samples of a depth map on 256 levels.
pub open spec fn samples8<F: Fn(Op, Real, Real) -> Real>(f: F, data: Seq<Real>) -> Seq<u8> {
    Seq::new(data.len(), |k: int| level_of(f, data[k], FULL_8, 0xff) as u8)
}

/// Encode a depth map as a PNG, 16-bit or 8-bit to match its own bit depth. A
/// map of up to 2^27 pixels is always encoded, and reading the file gives back
/// its size, its depth and its samples.
pub fn to_png<F: Fn(Op, Real, Real) -> Real>(map: &DepthMap, arith: &F) -> (r: Result<
    Vec<u8>,
    Error,
>)
    requires
        number::steady(*arith),
        map.wf(),
    ensures
        ({
            let file = match map.bits {
                BitDepth::Sixteen => png16(map.width, map.height, samples16(*arith, map.data@)),
                BitDepth::Eight => png8(map.width, map.height, samples8(*arith, map.data@)),
            };
            match file {
                Some(b) => r matches Ok(v) && v@ == b,
                None => r matches Err(e) && e is Decode,
            }
        }),
        map.width * map.height <= 0x800_0000 ==> (r matches Ok(b) && match map.bits {
            BitDepth::Sixteen => depth::holds(
                b@,
                map.width,
                map.height,
                Colour::L16,
                samples16(*arith, map.data@),
            ),
            BitDepth::Eight => depth::holds(
                b@,
                map.width,
                map.height,
                Colour::L8,
                widened(samples8(*arith, map.data@)),
            ),
        }),
{
    match map.bits {
        BitDepth::Sixteen => {
            let mut raw: Vec<u16> = Vec::new();
            let mut k: usize = 0;
            while k < map.data.len()
                invariant
                    number::steady(*arith),
                    k <= map.data@.len(),
                    raw@ == samples16(*arith, map.data@).take(k as int),
                decreases map.data@.len() - k,
            {
                raw.push(level(map.data[k], FULL_16, 0xffff, arith) as u16);
                k = k + 1;
                assert(raw@ =~= samples16(*arith, map.data@).take(k as int));
            }
            assert(raw@ =~= samples16(*arith, map.data@));
            match encode_grey16(map.width, map.height, raw) {
                Ok(b) => Ok(b),
                Err(e) => Err(Error::Decode(e)),
            }
        },
        BitDepth::Eight => {
            let mut raw: Vec<u8> = Vec::new();
            let mut k: usize = 0;
            while k < map.data.len()
                invariant
                    number::steady(*arith),
                    k <= map.data@.len(),
                    raw@ == samples8(*arith, map.data@).take(k as int),
                decreases map.data@.len() - k,
            {
                raw.push(level(map.data[k], FULL_8, 0xff, arith) as u8);
                k = k + 1;
                assert(raw@ =~= samples8(*arith, map.data@).take(k as int));
            }
            assert(raw@ =~= samples8(*arith, map.data@));
            match encode_grey8(map.width, map.height, raw) {
                Ok(b) => Ok(b),
                Err(e) => Err(Error::Decode(e)),
            }
        },
    }
}

/// What is read back from the file of a 16-bit map is that map, on the levels
/// that the file has: same size, same depth, every sample its own level.
pub proof fn law_png_reads_back<F: Fn(Op, Real, Real) -> Real>(
    f: F,
    map: DepthMap,
    file: Seq<u8>,
    back: DepthMap,
)
    requires
        map.wf(),
        map.bits == BitDepth::Sixteen,
        depth::holds(file, map.width, map.height, Colour::L16, samples16(f, map.data@)),
        back.read_from(f, file),
    ensures
        back.width == map.width,
        back.height == map.height,
        back.bits == map.bits,
        !back.was_colour,
        back.data@ == Seq::new(
            map.data@.len(),
            |k: int| depth::fraction(f, level_of(f, map.data@[k], FULL_16, 0xffff) as u16),
        ),
{
    assert(back.data@ =~= Seq::new(
        map.data@.len(),
        |k: int| depth::fraction(f, level_of(f, map.data@[k], FULL_16, 0xffff) as u16),
    ));
}

/// What is read back from the file of an 8-bit map is that map, on the levels
/// that the file has: same size, same depth, every sample its own level.
pub proof fn law_png8_reads_back<F: Fn(Op, Real, Real) -> Real>(
    f: F,
    map: DepthMap,
    file: Seq<u8>,
    back: DepthMap,
)
    requires
        map.wf(),
        map.bits == BitDepth::Eight,
        depth::holds(file, map.width, map.height, Colour::L8, widened(samples8(f, map.data@))),
        back.read_from(f, file),
    ensures
        back.width == map.width,
        back.height == map.height,
        back.bits == map.bits,
        !back.was_colour,
        back.data@ == Seq::new(
            map.data@.len(),
            |k: int|
                depth::fraction(
                    f,
                    ((level_of(f, map.data@[k], FULL_8, 0xff) as u8) * 257) as u16,
                ),
        ),
{
    assert(back.data@ =~= Seq::new(
        map.data@.len(),
        |k: int|
            depth::fraction(f, ((level_of(f, map.data@[k], FULL_8, 0xff) as u8) * 257) as u16),
    ));
}

} // verus!
