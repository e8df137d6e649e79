//! Decoding a depth map, and conditioning it into a height field.
//!
//! Both 8-bit and 16-bit sources are accepted: the limit that matters is
//! millimetres of relief per level against the printer's layer height, which is
//! a computed number and not a property of the file format. What 8-bit input
//! brings along, the 256-level staircase and JPEG's block ringing, is calmed by
//! the blur and the median filter here.

use vstd::prelude::*;
use crate::error::Error;
use crate::grid;
use crate::number;
use crate::number::{Op, Real, INFINITY, NEG_INFINITY, ONE, ZERO};
use crate::params;
use crate::params::Params;

verus! {

/// How many distinct depths the source could express.
#[derive(Debug, Clone, Copy, PartialEq, Eq, Structural)]
pub enum BitDepth {
    Eight,
    Sixteen,
}

impl BitDepth {
    pub open spec fn count(self) -> u32 {
        match self {
            BitDepth::Eight => 256,
            BitDepth::Sixteen => 65_536,
        }
    }

    pub open spec fn name(self) -> Seq<char> {
        match self {
            BitDepth::Eight => "8-bit"@,
            BitDepth::Sixteen => "16-bit"@,
        }
    }

    /// Number of representable levels.
    pub fn levels(self) -> (r: u32)
        ensures
            r == self.count(),
    {
        match self {
            BitDepth::Eight => 256,
            BitDepth::Sixteen => 65_536,
        }
    }

    pub fn label(self) -> (r: &'static str)
        ensures
            r@ == self.name(),
    {
        match self {
            BitDepth::Eight => "8-bit",
            BitDepth::Sixteen => "16-bit",
        }
    }
}

// ---------------------------------------------------------------------------
// Images
// ---------------------------------------------------------------------------

/// How a decoded image stores its pixels.
#[derive(Debug, Clone, Copy, PartialEq, Eq, Structural)]
pub enum Colour {
    L8,
    La8,
    Rgb8,
    Rgba8,
    L16,
    La16,
    Rgb16,
    Rgba16,
    Other,
}

impl Colour {
    pub open spec fn depth(self) -> BitDepth {
        match self {
            Colour::L16 | Colour::La16 | Colour::Rgb16 | Colour::Rgba16 => BitDepth::Sixteen,
            _ => BitDepth::Eight,
        }
    }

    pub open spec fn chromatic(self) -> bool {
        match self {
            Colour::L8 | Colour::La8 | Colour::L16 | Colour::La16 => false,
            _ => true,
        }
    }

    /// The levels that a source of this kind can express.
    pub fn bits(self) -> (r: BitDepth)
        ensures
            r == self.depth(),
    {
        match self {
            Colour::L16 | Colour::La16 | Colour::Rgb16 | Colour::Rgba16 => BitDepth::Sixteen,
            _ => BitDepth::Eight,
        }
    }

    /// Anything but grey, with or without transparency.
    pub fn coloured(self) -> (r: bool)
        ensures
            r == self.chromatic(),
    {
        match self {
            Colour::L8 | Colour::La8 | Colour::L16 | Colour::La16 => false,
            _ => true,
        }
    }
}

/// A decoded image: its shape, how it was stored, and, row by row, its 16-bit
/// luma and its 16-bit channels.
#[derive(Debug, Clone)]
pub struct Picture {
    pub width: u32,
    pub height: u32,
    pub colour: Colour,
    pub luma: Vec<u16>,
    /// Red, green and blue for each pixel.
    pub rgb: Vec<u16>,
}

impl Picture {
    pub open spec fn wf(self) -> bool {
        &&& self.luma@.len() == self.width * self.height
        &&& self.rgb@.len() == 3 * self.luma@.len()
    }

    /// What a picture is without its luma.
    pub open spec fn parts(self) -> (u32, u32, Colour, Seq<u16>) {
        (self.width, self.height, self.colour, self.rgb@)
    }

    /// The bytes that this picture was decoded from.
    pub open spec fn held_in(self, bytes: Seq<u8>) -> bool {
        &&& self.wf()
        &&& decoded(bytes) == Some(self.parts())
        &&& !self.colour.chromatic() ==> self.luma@ == grey(bytes)
    }
}

/// The luma of a colour with the weights of Rec. 601, to the nearest level.
pub open spec fn rec601(r: u16, g: u16, b: u16) -> u16 {
    ((299 * r + 587 * g + 114 * b + 500) / 1000) as u16
}

/// The luma of a picture: its own where it is grey, and that of its colours
/// where it is not.
pub open spec fn greys(colour: Colour, luma: Seq<u16>, rgb: Seq<u16>) -> Seq<u16> {
    if colour.chromatic() {
        Seq::new(rgb.len() / 3, |k: int| rec601(rgb[3 * k], rgb[3 * k + 1], rgb[3 * k + 2]))
    } else {
        luma
    }
}

/// What `image::load_from_memory` makes of some bytes: width, height, storage,
/// and the channels that `DynamicImage::to_rgb16` gives of it, or nothing. This
/// takes the decoders that the library comes with: no decoding hook may be
/// registered in the process.
pub uninterp spec fn decoded(bytes: Seq<u8>) -> Option<(u32, u32, Colour, Seq<u16>)>;

/// The samples that `DynamicImage::to_luma16` gives of some bytes that are a
/// grey image.
pub uninterp spec fn grey(bytes: Seq<u8>) -> Seq<u16>;

/// Some bytes are a grey image of this size, stored this way, with these
/// samples.
pub open spec fn holds(bytes: Seq<u8>, w: u32, h: u32, colour: Colour, luma: Seq<u16>) -> bool {
    &&& decoded(bytes) matches Some(p) && p.0 == w && p.1 == h && p.2 == colour && p.3.len() == 3
        * luma.len()
    &&& !colour.chromatic()
    &&& grey(bytes) == luma
}

/// Calls `image::load_from_memory`, `DynamicImage::to_luma16` and
/// `DynamicImage::to_rgb16`. Trusted: shape, storage and channels depend on the
/// bytes alone, and so does the luma of a grey image; a decoded image has one
/// luma sample and three channels for each of its pixels. The luma of a coloured
/// image is left open: it is summed with or without intermediate rounding,
/// depending on the machine.
#[verifier::external_body]
fn decode_image(bytes: &[u8]) -> (r: Result<Picture, image::ImageError>)
    ensures
        r is Ok <==> decoded(bytes@) is Some,
        r matches Ok(p) ==> decoded(bytes@) == Some(p.parts()),
        r matches Ok(p) ==> (!p.colour.chromatic() ==> p.luma@ == grey(bytes@)),
        r matches Ok(p) ==> p.luma@.len() == p.width * p.height,
        r matches Ok(p) ==> p.rgb@.len() == 3 * p.luma@.len(),
{
    let image = image::load_from_memory(bytes)?;
    let (width, height) = (image.width(), image.height());
    let colour = match image.color() {
        image::ColorType::L8 => Colour::L8,
        image::ColorType::La8 => Colour::La8,
        image::ColorType::Rgb8 => Colour::Rgb8,
        image::ColorType::Rgba8 => Colour::Rgba8,
        image::ColorType::L16 => Colour::L16,
        image::ColorType::La16 => Colour::La16,
        image::ColorType::Rgb16 => Colour::Rgb16,
        image::ColorType::Rgba16 => Colour::Rgba16,
        _ => Colour::Other,
    };
    let (luma, rgb) = (image.to_luma16().into_raw(), image.to_rgb16().into_raw());
    Ok(Picture { width, height, colour, luma, rgb })
}

/// What `image::load_from_memory` and `DynamicImage::to_rgba8` make of some
/// bytes: width, height and channels, or nothing.
pub uninterp spec fn textured(bytes: Seq<u8>) -> Option<(u32, u32, Seq<u8>)>;

/// The longest side that a photo is resized to. Up to here every column and row
/// of the result is within reach of a source pixel in single precision.
pub const MAX_SIDE: u32 = 0x1_0000;

/// These are channels that `image::load_from_memory`, then
/// `DynamicImage::resize_exact` with the Lanczos filter and
/// `DynamicImage::to_rgb8`, can make of some bytes and a size.
pub uninterp spec fn resampled(bytes: Seq<u8>, w: u32, h: u32, channels: Seq<u8>) -> bool;

/// Calls `image::load_from_memory`, `DynamicImage::resize_exact` with the
/// Lanczos filter, and `DynamicImage::to_rgb8`. Trusted: an image that decodes
/// is resized, others are refused, and the outcome has three channels for each
/// pixel of the requested size and comes of these bytes and this size. The
/// values are left open: the filter takes sines, whose precision the standard
/// library leaves open. Beyond the bounds a weight of the filter may not be a
/// number.
#[verifier::external_body]
fn rescale_image(bytes: &[u8], w: u32, h: u32) -> (r: Result<Vec<u8>, image::ImageError>)
    requires
        1 <= w <= MAX_SIDE,
        1 <= h <= MAX_SIDE,
    ensures
        r matches Ok(v) ==> v@.len() == 3 * (w * h),
        r matches Ok(v) ==> resampled(bytes@, w, h, v@),
        r is Ok <==> decoded(bytes@) is Some,
{
    let image = image::load_from_memory(bytes)?;
    let scaled = image.resize_exact(w, h, image::imageops::FilterType::Lanczos3);
    Ok(scaled.to_rgb8().into_raw())
}

/// Calls `image::load_from_memory` and `DynamicImage::to_rgba8`. Trusted: the
/// outcome depends on the bytes alone, it exists for every image that decodes,
/// and it has the size of that image with four channels for each of its pixels.
#[verifier::external_body]
fn decode_rgba(bytes: &[u8]) -> (r: Result<Texture, image::ImageError>)
    ensures
        r is Ok <==> textured(bytes@) is Some,
        r matches Ok(t) ==> textured(bytes@) == Some((t.width, t.height, t.rgba@)),
        r matches Ok(t) ==> t.rgba@.len() == 4 * (t.width * t.height),
        r is Ok <==> decoded(bytes@) is Some,
        r matches Ok(t) ==> (decoded(bytes@) matches Some(p) && t.width == p.0 && t.height == p.1),
{
    let rgba = image::load_from_memory(bytes)?.to_rgba8();
    let (width, height) = rgba.dimensions();
    Ok(Texture { width, height, rgba: rgba.into_raw() })
}

/// A photo the way a screen takes it: red, green, blue and opacity for each
/// pixel.
#[derive(Debug)]
pub struct Texture {
    pub width: u32,
    pub height: u32,
    pub rgba: Vec<u8>,
}

/// Decode a photo for the screen.
pub fn open_texture(bytes: &[u8]) -> (r: Result<Texture, Error>)
    ensures
        r is Ok <==> textured(bytes@) is Some,
        r matches Ok(t) ==> textured(bytes@) == Some((t.width, t.height, t.rgba@)),
        r matches Ok(t) ==> t.rgba@.len() == 4 * (t.width * t.height),
        r is Ok <==> decoded(bytes@) is Some,
        r matches Ok(t) ==> (decoded(bytes@) matches Some(p) && t.width == p.0 && t.height == p.1),
        r matches Err(e) ==> e is Decode,
{
    match decode_rgba(bytes) {
        Ok(t) => Ok(t),
        Err(e) => Err(Error::Decode(e)),
    }
}

/// Decode an image that is to be used as a photo.
pub fn open_picture(bytes: &[u8]) -> (r: Result<Picture, Error>)
    ensures
        r is Ok <==> decoded(bytes@) is Some,
        r matches Ok(p) ==> p.held_in(bytes@),
        r matches Err(e) ==> e is Decode,
{
    match decode_image(bytes) {
        Ok(p) => Ok(p),
        Err(e) => Err(Error::Decode(e)),
    }
}

// ---------------------------------------------------------------------------
// Depth maps
// ---------------------------------------------------------------------------

/// A decoded depth map: one number from zero to one per pixel, row by row.
#[derive(Debug, Clone)]
pub struct DepthMap {
    pub width: u32,
    pub height: u32,
    pub bits: BitDepth,
    /// The source had colour, so the luma conversion was a guess.
    pub was_colour: bool,
    pub data: Vec<Real>,
}

/// The bits of 1/65535.
pub const LUMA_SCALE: u32 = 0x3780_0080;

/// A luma sample as a fraction.
pub open spec fn fraction<F: Fn(Op, Real, Real) -> Real>(arith: F, v: u16) -> Real {
    number::times(arith, number::whole(v as nat), Real { bits: LUMA_SCALE })
}

/// The whole number below, as far as an index can hold it.
pub open spec fn index_of(r: Real) -> int {
    if r.floored() > usize::MAX {
        usize::MAX as int
    } else {
        r.floored()
    }
}

fn to_index(r: Real) -> (i: usize)
    ensures
        i == index_of(r),
{
    let n: u64 = r.to_int();
    if n > usize::MAX as u64 {
        usize::MAX
    } else {
        n as usize
    }
}

/// From `a` to `b` by the fraction `t`.
pub open spec fn mix<F: Fn(Op, Real, Real) -> Real>(arith: F, a: Real, b: Real, t: Real) -> Real {
    number::plus(arith, a, number::times(arith, number::minus(arith, b, a), t))
}

pub fn blend<F: Fn(Op, Real, Real) -> Real>(arith: &F, a: Real, b: Real, t: Real) -> (r: Real)
    requires
        number::steady(*arith),
    ensures
        r == mix(*arith, a, b, t),
{
    let d = number::ask(arith, Op::Minus, b, a);
    let s = number::ask(arith, Op::Times, d, t);
    number::ask(arith, Op::Plus, a, s)
}

/// Source samples per destination sample along one axis, with the first and
/// last samples of both on top of each other.
pub open spec fn stride<F: Fn(Op, Real, Real) -> Real>(arith: F, from: nat, to: nat) -> Real {
    number::over(
        arith,
        number::minus(arith, number::whole(from), Real { bits: ONE }),
        number::minus(arith, number::whole(to), Real { bits: ONE }),
    )
}

fn step_between<F: Fn(Op, Real, Real) -> Real>(arith: &F, from: u64, to: u64) -> (r: Real)
    requires
        number::steady(*arith),
    ensures
        r == stride(*arith, from as nat, to as nat),
{
    let a = number::ask(arith, Op::Minus, Real::from_int(from), Real { bits: ONE });
    let b = number::ask(arith, Op::Minus, Real::from_int(to), Real { bits: ONE });
    number::ask(arith, Op::Over, a, b)
}

/// Where a destination sample falls: the source sample before it, and how far
/// past that one.
pub open spec fn landing<F: Fn(Op, Real, Real) -> Real>(arith: F, i: nat, step: Real) -> (
    int,
    Real,
) {
    let f = number::times(arith, number::whole(i), step);
    let n = index_of(f);
    (n, number::minus(arith, f, number::whole(n as nat)))
}

fn land<F: Fn(Op, Real, Real) -> Real>(arith: &F, i: u64, step: Real) -> (r: (usize, Real))
    requires
        number::steady(*arith),
    ensures
        r.0 == landing(*arith, i as nat, step).0,
        r.1 == landing(*arith, i as nat, step).1,
{
    let f = number::ask(arith, Op::Times, Real::from_int(i), step);
    let n: usize = to_index(f);
    (n, number::ask(arith, Op::Minus, f, Real::from_int(n as u64)))
}

impl DepthMap {
    /// A sample for every pixel, and at least one pixel.
    pub open spec fn wf(self) -> bool {
        &&& self.width >= 1
        &&& self.height >= 1
        &&& self.data@.len() == self.width * self.height
    }

    /// The sample at a place, or the nearest one when it lies outside.
    pub open spec fn sample(self, x: int, y: int) -> Real {
        self.data@[grid::pin(y, self.height as int) * self.width + grid::pin(x, self.width as int)]
    }

    /// Some bytes are an image with room for a quad.
    pub open spec fn readable(bytes: Seq<u8>) -> bool {
        decoded(bytes) matches Some(p) && p.0 >= 2 && p.1 >= 2
    }

    /// The map that readable bytes hold.
    pub open spec fn read_from<F: Fn(Op, Real, Real) -> Real>(self, arith: F, bytes: Seq<u8>) -> bool {
        decoded(bytes) matches Some(p) && {
            &&& self.wf()
            &&& self.width == p.0
            &&& self.height == p.1
            &&& self.bits == p.2.depth()
            &&& self.was_colour == p.2.chromatic()
            &&& self.data@ == Seq::new(
                p.3.len() / 3,
                |k: int| fraction(arith, greys(p.2, grey(bytes), p.3)[k]),
            )
        }
    }

    /// Why other bytes are refused.
    pub open spec fn refused(bytes: Seq<u8>, e: Error) -> bool {
        match decoded(bytes) {
            None => e is Decode,
            Some(p) => e == (Error::TooSmall { width: p.0, height: p.1 }),
        }
    }

    /// Decode PNG (8- or 16-bit) or JPEG from memory. Colour inputs are
    /// converted with Rec. 601 luma weights and flagged.
    pub fn decode<F: Fn(Op, Real, Real) -> Real>(bytes: &[u8], arith: &F) -> (r: Result<
        Self,
        Error,
    >)
        requires
            number::steady(*arith),
        ensures
            r is Ok <==> Self::readable(bytes@),
            r matches Ok(m) ==> m.read_from(*arith, bytes@),
            r matches Err(e) ==> Self::refused(bytes@, e),
    {
        let image = open_picture(bytes)?;
        Self::from_dynamic(&image, arith)
    }

    /// A decoded image as a depth map.
    pub fn from_dynamic<F: Fn(Op, Real, Real) -> Real>(image: &Picture, arith: &F) -> (r: Result<
        Self,
        Error,
    >)
        requires
            number::steady(*arith),
            image.wf(),
        ensures
            if image.width < 2 || image.height < 2 {
                r == Err::<DepthMap, Error>(
                    Error::TooSmall { width: image.width, height: image.height },
                )
            } else {
                &&& r matches Ok(m)
                &&& m.wf()
                &&& m.width == image.width
                &&& m.height == image.height
                &&& m.bits == image.colour.depth()
                &&& m.was_colour == image.colour.chromatic()
                &&& m.data@ == Seq::new(
                    image.luma@.len(),
                    |k: int|
                        fraction(*arith, greys(image.colour, image.luma@, image.rgb@)[k]),
                )
            },
    {
        if image.width < 2 || image.height < 2 {
            return Err(Error::TooSmall { width: image.width, height: image.height });
        }
        let scale = Real { bits: LUMA_SCALE };
        let ghost all = greys(image.colour, image.luma@, image.rgb@);
        let coloured: bool = image.colour.coloured();
        let n: usize = image.luma.len();
        assert(image.rgb.len() == 3 * n);
        let mut data: Vec<Real> = Vec::with_capacity(n);
        let mut k: usize = 0;
        while k < n
            invariant
                number::steady(*arith),
                scale == (Real { bits: LUMA_SCALE }),
                coloured == image.colour.chromatic(),
                n == image.luma@.len(),
                image.rgb@.len() == 3 * n,
                image.rgb@.len() <= usize::MAX,
                all == greys(image.colour, image.luma@, image.rgb@),
                k <= n,
                data@ == Seq::new(k as nat, |k: int| fraction(*arith, all[k])),
            decreases n - k,
        {
            let v: u64 = if coloured {
                let (r, g, b) = (image.rgb[3 * k], image.rgb[3 * k + 1], image.rgb[3 * k + 2]);
                (299 * r as u64 + 587 * g as u64 + 114 * b as u64 + 500) / 1000
            } else {
                image.luma[k] as u64
            };
            assert(v == all[k as int]);
            data.push(number::ask(arith, Op::Times, Real::from_int(v), scale));
            k = k + 1;
            assert(data@ =~= Seq::new(k as nat, |k: int| fraction(*arith, all[k])));
        }
        Ok(
            DepthMap {
                width: image.width,
                height: image.height,
                bits: image.colour.bits(),
                was_colour: coloured,
                data,
            },
        )
    }

    pub open spec fn shape<F: Fn(Op, Real, Real) -> Real>(self, arith: F) -> Real {
        number::over(arith, number::whole(self.width as nat), number::whole(self.height as nat))
    }

    /// Width over height.
    pub fn aspect<F: Fn(Op, Real, Real) -> Real>(&self, arith: &F) -> (r: Real)
        requires
            number::steady(*arith),
        ensures
            r == self.shape(*arith),
    {
        number::ask(
            arith,
            Op::Over,
            Real::from_int(self.width as u64),
            Real::from_int(self.height as u64),
        )
    }

    /// The sample at a place, or the nearest one when it lies outside.
    pub fn at(&self, x: usize, y: usize) -> (r: Real)
        requires
            self.wf(),
        ensures
            r == self.sample(x as int, y as int),
    {
        let last_x: usize = self.width as usize - 1;
        let last_y: usize = self.height as usize - 1;
        let x: usize = if x < last_x {
            x
        } else {
            last_x
        };
        let y: usize = if y < last_y {
            y
        } else {
            last_y
        };
        proof {
            grid::lemma_index(self.width as int, self.height as int, x as int, y as int);
            assert(self.data.len() == self.data@.len());
        }
        self.data[y * self.width as usize + x]
    }

    /// The resampled value at a destination pixel.
    pub open spec fn resample<F: Fn(Op, Real, Real) -> Real>(
        self,
        arith: F,
        w: nat,
        h: nat,
        i: nat,
        j: nat,
    ) -> Real {
        let (x, tx) = landing(arith, i, stride(arith, self.width as nat, w));
        let (y, ty) = landing(arith, j, stride(arith, self.height as nat, h));
        mix(
            arith,
            mix(arith, self.sample(x, y), self.sample(x + 1, y), tx),
            mix(arith, self.sample(x, y + 1), self.sample(x + 1, y + 1), tx),
            ty,
        )
    }

    /// What resampling to at least two by two gives.
    pub open spec fn resized_to<F: Fn(Op, Real, Real) -> Real>(
        self,
        arith: F,
        w: nat,
        h: nat,
        r: DepthMap,
    ) -> bool {
        &&& r.wf()
        &&& r.width == w
        &&& r.height == h
        &&& r.bits == self.bits
        &&& r.was_colour == self.was_colour
        &&& r.data@ == (if w == self.width && h == self.height {
            self.data@
        } else {
            Seq::new(
                w * h,
                |k: int| self.resample(arith, w, h, (k % (w as int)) as nat, (k / (w as int)) as nat),
            )
        })
    }

    /// Bilinear resample to `(w, h)`, at least two by two. The first and last
    /// samples stay on the first and last pixels, which keeps the relief's edges
    /// where they were.
    pub fn resized<F: Fn(Op, Real, Real) -> Real>(&self, w: usize, h: usize, arith: &F) -> (r: Self)
        requires
            number::steady(*arith),
            self.wf(),
            at_least_two(w) * at_least_two(h) <= usize::MAX,
            at_least_two(w) <= u32::MAX,
            at_least_two(h) <= u32::MAX,
        ensures
            self.resized_to(*arith, at_least_two(w), at_least_two(h), r),
    {
        let w: usize = if w < 2 {
            2
        } else {
            w
        };
        let h: usize = if h < 2 {
            2
        } else {
            h
        };
        if w == self.width as usize && h == self.height as usize {
            return DepthMap {
                width: self.width,
                height: self.height,
                bits: self.bits,
                was_colour: self.was_colour,
                data: copied(&self.data),
            };
        }
        let sx = step_between(arith, self.width as u64, w as u64);
        let sy = step_between(arith, self.height as u64, h as u64);
        let n: usize = w * h;
        let mut out: Vec<Real> = Vec::with_capacity(n);
        let mut k: usize = 0;
        while k < n
            invariant
                number::steady(*arith),
                self.wf(),
                k <= n,
                n == w * h,
                w >= 2,
                h >= 2,
                sx == stride(*arith, self.width as nat, w as nat),
                sy == stride(*arith, self.height as nat, h as nat),
                out@ == Seq::new(
                    k as nat,
                    |k: int|
                        self.resample(
                            *arith,
                            w as nat,
                            h as nat,
                            (k % (w as int)) as nat,
                            (k / (w as int)) as nat,
                        ),
                ),
            decreases n - k,
        {
            let (x, tx) = land(arith, (k % w) as u64, sx);
            let (y, ty) = land(arith, (k / w) as u64, sy);
            let right: usize = if x < usize::MAX {
                x + 1
            } else {
                x
            };
            let down: usize = if y < usize::MAX {
                y + 1
            } else {
                y
            };
            let top = blend(arith, self.at(x, y), self.at(right, y), tx);
            let bottom = blend(arith, self.at(x, down), self.at(right, down), tx);
            let v = blend(arith, top, bottom, ty);
            proof {
                assert(self.sample(right as int, y as int) == self.sample(x + 1, y as int));
                assert(self.sample(x as int, down as int) == self.sample(x as int, y + 1));
                assert(self.sample(right as int, down as int) == self.sample(x + 1, y + 1));
                assert(v == self.resample(
                    *arith,
                    w as nat,
                    h as nat,
                    (k as int % w as int) as nat,
                    (k as int / w as int) as nat,
                ));
            }
            out.push(v);
            k = k + 1;
            assert(out@ =~= Seq::new(
                k as nat,
                |k: int|
                    self.resample(
                        *arith,
                        w as nat,
                        h as nat,
                        (k % (w as int)) as nat,
                        (k / (w as int)) as nat,
                    ),
            ));
        }
        DepthMap {
            width: w as u32,
            height: h as u32,
            bits: self.bits,
            was_colour: self.was_colour,
            data: out,
        }
    }

    /// Grid dimensions this map would produce under `params`.
    pub fn grid(&self, params: &Params) -> (r: (usize, usize))
        ensures
            r.0 == params::grid_side(params.size_px, self.width, self.height),
            r.1 == params::grid_side(params.size_px, self.height, self.width),
            2 <= r.0 && (r.0 <= params.size_px || r.0 == 2),
            2 <= r.1 && (r.1 <= params.size_px || r.1 == 2),
    {
        params.grid_for(self.width, self.height)
    }
}

pub open spec fn at_least_two(n: usize) -> nat {
    if n < 2 {
        2
    } else {
        n as nat
    }
}

fn copied(v: &Vec<Real>) -> (r: Vec<Real>)
    ensures
        r@ == v@,
{
    let mut r: Vec<Real> = Vec::with_capacity(v.len());
    let mut k: usize = 0;
    while k < v.len()
        invariant
            k <= v@.len(),
            r@ == v@.take(k as int),
        decreases v@.len() - k,
    {
        r.push(v[k]);
        k = k + 1;
        assert(r@ =~= v@.take(k as int));
    }
    assert(v@.take(v@.len() as int) =~= v@);
    r
}


// ---------------------------------------------------------------------------
// Filters
// ---------------------------------------------------------------------------

/// `v` put in its place behind everything that is not greater.
pub open spec fn placed(s: Seq<Real>, v: Real) -> Seq<Real>
    decreases s.len(),
{
    if s.len() == 0 || !v.below(s.last()) {
        s.push(v)
    } else {
        placed(s.drop_last(), v).push(s.last())
    }
}

/// The numbers in ascending order.
pub open spec fn ordered(s: Seq<Real>) -> Seq<Real>
    decreases s.len(),
{
    if s.len() == 0 {
        s
    } else {
        placed(ordered(s.drop_last()), s.last())
    }
}

/// Ascending.
pub open spec fn ascending(s: Seq<Real>) -> bool {
    forall|i: int, j: int|
        0 <= i <= j < s.len() ==> (#[trigger] s[i]).rank() <= (#[trigger] s[j]).rank()
}

proof fn lemma_placed(s: Seq<Real>, v: Real)
    ensures
        placed(s, v).len() == s.len() + 1,
        placed(s, v).to_multiset() =~= s.to_multiset().insert(v),
        (forall|i: int| 0 <= i < s.len() ==> !(#[trigger] s[i]).nan()) && !v.nan() ==> {
            &&& forall|i: int| 0 <= i < placed(s, v).len() ==> !(#[trigger] placed(s, v)[i]).nan()
            &&& ascending(s) ==> ascending(placed(s, v))
        },
    decreases s.len(),
{
    if s.len() == 0 || !v.below(s.last()) {
        s.to_multiset_ensures();
    } else {
        let t = s.drop_last();
        lemma_placed(t, v);
        let p = placed(t, v);
        p.to_multiset_ensures();
        t.to_multiset_ensures();
        assert(s =~= t.push(s.last()));
        assert(p.push(s.last()).to_multiset() =~= t.to_multiset().insert(v).insert(s.last()));
        assert(t.to_multiset().insert(s.last()).insert(v) =~= t.to_multiset().insert(v).insert(
            s.last(),
        ));
        if (forall|i: int| 0 <= i < s.len() ==> !(#[trigger] s[i]).nan()) && !v.nan() && ascending(
            s,
        ) {
            assert(ascending(t));
            assert forall|i: int| 0 <= i < p.len() implies (#[trigger] p[i]).rank()
                <= s.last().rank() by {
                assert(p.to_multiset().contains(p[i]));
                assert(t.to_multiset().insert(v).contains(p[i]));
                if p[i] != v {
                    assert(t.contains(p[i]));
                    let k = choose|k: int| 0 <= k < t.len() && t[k] == p[i];
                    assert(s[k].rank() <= s[s.len() - 1].rank());
                }
            }
        }
    }
}

/// The median filter sorts what its window holds: nothing is lost or made up,
/// and without NaN the order is the order of the values.
pub proof fn lemma_ordered(s: Seq<Real>)
    ensures
        ordered(s).len() == s.len(),
        ordered(s).to_multiset() =~= s.to_multiset(),
        (forall|i: int| 0 <= i < s.len() ==> !(#[trigger] s[i]).nan()) ==> {
            &&& forall|i: int| 0 <= i < ordered(s).len() ==> !(#[trigger] ordered(s)[i]).nan()
            &&& ascending(ordered(s))
        },
    decreases s.len(),
{
    if s.len() > 0 {
        let t = s.drop_last();
        lemma_ordered(t);
        lemma_placed(ordered(t), s.last());
        t.to_multiset_ensures();
        assert(s =~= t.push(s.last()));
    }
}

fn place(window: &mut Vec<Real>, v: Real)
    ensures
        final(window)@ == placed(old(window)@, v),
{
    let ghost was = window@;
    let mut k: usize = window.len();
    window.push(v);
    assert(was.take(was.len() as int) =~= was);
    assert(was.skip(was.len() as int) =~= Seq::empty());
    assert(placed(was, v) =~= placed(was, v) + Seq::empty());
    while k > 0 && v.lt(window[k - 1])
        invariant
            k <= was.len(),
            window@.len() == was.len() + 1,
            forall|i: int| 0 <= i < k ==> #[trigger] window@[i] == was[i],
            forall|i: int| k < i <= was.len() ==> #[trigger] window@[i] == was[i - 1],
            placed(was, v) == placed(was.take(k as int), v) + was.skip(k as int),
        decreases k,
    {
        let moved = window[k - 1];
        window.set(k, moved);
        proof {
            let s = was.take(k as int);
            assert(s.drop_last() =~= was.take(k - 1));
            assert(placed(s, v) == placed(was.take(k - 1), v).push(was[k - 1]));
            assert(placed(was.take(k - 1), v).push(was[k - 1]) + was.skip(k as int) =~= placed(
                was.take(k - 1),
                v,
            ) + was.skip(k - 1));
        }
        k = k - 1;
    }
    window.set(k, v);
    proof {
        let s = was.take(k as int);
        if k > 0 {
            assert(s.last() == was[k - 1]);
        }
        assert(placed(s, v) == s.push(v));
        assert(window@ =~= s.push(v) + was.skip(k as int));
    }
}

/// The window around a pixel, row by row, edge pixels standing in for what lies
/// outside.
pub open spec fn window_of(src: Seq<Real>, w: int, h: int, r: int, x: int, y: int) -> Seq<Real> {
    let side = 2 * r + 1;
    Seq::new(
        (side * side) as nat,
        |n: int| src[grid::pin(y + n / side - r, h) * w + grid::pin(x + n % side - r, w)],
    )
}

pub open spec fn median_at(src: Seq<Real>, w: int, h: int, r: int, x: int, y: int) -> Real {
    let s = window_of(src, w, h, r, x, y);
    ordered(s)[s.len() as int / 2]
}

pub open spec fn median_of(src: Seq<Real>, w: int, h: int, size: int) -> Seq<Real> {
    Seq::new(src.len(), |k: int| median_at(src, w, h, size / 2, k % w, k / w))
}

/// `p + d - r`, moved into `0..n`.
fn pinned(p: usize, d: u64, r: u64, n: usize) -> (i: usize)
    requires
        n >= 1,
    ensures
        i == grid::pin(p + d - r, n as int),
        i < n,
{
    let sum: u128 = p as u128 + d as u128;
    if sum < r as u128 {
        0
    } else {
        let q: u128 = sum - r as u128;
        if q >= n as u128 {
            n - 1
        } else {
            q as usize
        }
    }
}

/// Median filter with a `size × size` window and clamped edges.
///
/// A median removes isolated depth spikes and JPEG ringing without rounding off
/// the real edges that give a relief its definition.
pub fn median(src: &Vec<Real>, w: usize, h: usize, size: usize) -> (r: Vec<Real>)
    requires
        w >= 1,
        h >= 1,
        src@.len() == w * h,
        size <= 5,
    ensures
        r@ == median_of(src@, w as int, h as int, size as int),
{
    let r: u64 = (size / 2) as u64;
    let side: u64 = 2 * r + 1;
    assert(side * side <= 25) by (nonlinear_arith)
        requires
            side <= 5,
    ;
    let total: u64 = side * side;
    let n: usize = src.len();
    let mut out: Vec<Real> = Vec::with_capacity(n);
    let mut k: usize = 0;
    while k < n
        invariant
            w >= 1,
            h >= 1,
            n == src@.len(),
            src@.len() == w * h,
            size <= 5,
            r == size as int / 2,
            side == 2 * r + 1,
            total == side * side,
            k <= n,
            out@ == Seq::new(
                k as nat,
                |k: int| median_at(src@, w as int, h as int, r as int, k % (w as int), k / (w as int)),
            ),
        decreases n - k,
    {
        let x: usize = k % w;
        let y: usize = k / w;
        proof {
            grid::lemma_cell(w as int, h as int, k as int);
        }
        let ghost full = window_of(src@, w as int, h as int, r as int, x as int, y as int);
        let mut window: Vec<Real> = Vec::with_capacity(25);
        let mut m: u64 = 0;
        assert(full.take(0) =~= Seq::empty());
        while m < total
            invariant
                w >= 1,
                h >= 1,
                src@.len() == w * h,
                r <= 2,
                side == 2 * r + 1,
                total == side * side,
                m <= total,
                x < w,
                y < h,
                full == window_of(src@, w as int, h as int, r as int, x as int, y as int),
                window@ == ordered(full.take(m as int)),
            decreases total - m,
        {
            let py: usize = pinned(y, m / side, r, h);
            let px: usize = pinned(x, m % side, r, w);
            proof {
                grid::lemma_index(w as int, h as int, px as int, py as int);
                assert(src.len() == src@.len());
                assert(full.take(m + 1).drop_last() =~= full.take(m as int));
                assert(total <= 25) by (nonlinear_arith)
                    requires
                        total == side * side,
                        side <= 5,
                ;
            }
            let v = src[py * w + px];
            assert(v == full[m as int]);
            place(&mut window, v);
            m = m + 1;
        }
        assert(full.take(total as int) =~= full);
        proof {
            lemma_ordered(full);
            assert(total >= 1 && total <= 25) by (nonlinear_arith)
                requires
                    total == side * side,
                    1 <= side <= 5,
            ;
        }
        out.push(window[(total / 2) as usize]);
        k = k + 1;
        assert(out@ =~= Seq::new(
            k as nat,
            |k: int| median_at(src@, w as int, h as int, r as int, k % (w as int), k / (w as int)),
        ));
    }
    assert(out@ =~= median_of(src@, w as int, h as int, size as int));
    out
}

/// The bits of 3 and of -1/2.
pub const THREE: u32 = 0x4040_0000;

pub const NEG_HALF: u32 = 0xbf00_0000;

/// How many samples the blur reaches to each side: three deviations, rounded
/// up, at least one.
pub open spec fn reach<F: Fn(Op, Real, Real) -> Real>(arith: F, sigma: Real) -> int {
    let t = number::times(arith, sigma, Real { bits: THREE });
    let n = t.floored();
    if n >= i64::MAX {
        i64::MAX as int
    } else if number::whole(n as nat).below(t) {
        n + 1
    } else if n < 1 {
        1
    } else {
        n
    }
}

/// The bell curve at distance `k - r`.
pub open spec fn bell<F: Fn(Op, Real, Real) -> Real>(
    arith: F,
    sigma: Real,
    r: int,
    k: int,
) -> Real {
    let d = if k < r {
        number::whole((r - k) as nat).opposite()
    } else {
        number::whole((k - r) as nat)
    };
    let x = number::over(arith, d, sigma);
    number::exp(arith, number::times(arith, number::times(arith, Real { bits: NEG_HALF }, x), x))
}

pub open spec fn kernel_of<F: Fn(Op, Real, Real) -> Real>(arith: F, sigma: Real) -> Seq<Real> {
    let r = reach(arith, sigma);
    Seq::new((2 * r + 1) as nat, |k: int| bell(arith, sigma, r, k))
}

/// The sum of the first `n` numbers, from the left.
pub open spec fn total_of<F: Fn(Op, Real, Real) -> Real>(arith: F, s: Seq<Real>, n: nat) -> Real
    decreases n,
{
    if n == 0 {
        Real { bits: ZERO }
    } else {
        number::plus(arith, total_of(arith, s, (n - 1) as nat), s[n - 1])
    }
}

/// The first `n` weights with their samples, summed from the left.
pub open spec fn weighted<F: Fn(Op, Real, Real) -> Real>(
    arith: F,
    kernel: Seq<Real>,
    taps: spec_fn(int) -> Real,
    n: nat,
) -> Real
    decreases n,
{
    if n == 0 {
        Real { bits: ZERO }
    } else {
        number::plus(
            arith,
            weighted(arith, kernel, taps, (n - 1) as nat),
            number::times(arith, kernel[n - 1], taps(n - 1)),
        )
    }
}

/// The samples that the blur reads around a pixel, along its row or its column.
pub open spec fn taps_at(
    src: Seq<Real>,
    w: int,
    h: int,
    r: int,
    down: bool,
    k: int,
) -> spec_fn(int) -> Real {
    |t: int|
        if down {
            src[grid::pin(k / w + t - r, h) * w + k % w]
        } else {
            src[(k / w) * w + grid::pin(k % w + t - r, w)]
        }
}

/// One pass of the blur.
pub open spec fn blurred<F: Fn(Op, Real, Real) -> Real>(
    arith: F,
    src: Seq<Real>,
    w: int,
    h: int,
    kernel: Seq<Real>,
    down: bool,
) -> Seq<Real> {
    let norm = total_of(arith, kernel, kernel.len());
    let r = (kernel.len() as int - 1) / 2;
    Seq::new(
        src.len(),
        |k: int|
            number::over(
                arith,
                weighted(arith, kernel, taps_at(src, w, h, r, down, k), kernel.len()),
                norm,
            ),
    )
}

pub open spec fn gaussian_of<F: Fn(Op, Real, Real) -> Real>(
    arith: F,
    src: Seq<Real>,
    w: int,
    h: int,
    sigma: Real,
) -> Seq<Real> {
    let kernel = kernel_of(arith, sigma);
    blurred(arith, blurred(arith, src, w, h, kernel, false), w, h, kernel, true)
}

fn kernel_for<F: Fn(Op, Real, Real) -> Real>(sigma: Real, arith: &F) -> (r: (Vec<Real>, u64))
    requires
        number::steady(*arith),
    ensures
        r.0@ == kernel_of(*arith, sigma),
        r.1 == reach(*arith, sigma),
{
    let t = number::ask(arith, Op::Times, sigma, Real { bits: THREE });
    let n: u64 = t.to_int();
    let r: u64 = if n >= 0x7fff_ffff_ffff_ffff {
        0x7fff_ffff_ffff_ffff
    } else if Real::from_int(n).lt(t) {
        n + 1
    } else if n < 1 {
        1
    } else {
        n
    };
    let mut kernel: Vec<Real> = Vec::new();
    let mut k: u64 = 0;
    while k <= 2 * r
        invariant
            number::steady(*arith),
            r == reach(*arith, sigma),
            r <= 0x7fff_ffff_ffff_ffff,
            k <= 2 * r + 1,
            kernel@ == Seq::new(k as nat, |k: int| bell(*arith, sigma, r as int, k)),
        decreases 2 * r + 1 - k,
    {
        let d = if k < r {
            Real::from_int(r - k).neg()
        } else {
            Real::from_int(k - r)
        };
        let x = number::ask(arith, Op::Over, d, sigma);
        let a = number::ask(arith, Op::Times, Real { bits: NEG_HALF }, x);
        let b = number::ask(arith, Op::Times, a, x);
        kernel.push(number::ask(arith, Op::Exp, b, b));
        k = k + 1;
        assert(kernel@ =~= Seq::new(k as nat, |k: int| bell(*arith, sigma, r as int, k)));
    }
    (kernel, r)
}

fn blur<F: Fn(Op, Real, Real) -> Real>(
    src: &Vec<Real>,
    w: usize,
    h: usize,
    kernel: &Vec<Real>,
    r: u64,
    down: bool,
    arith: &F,
) -> (out: Vec<Real>)
    requires
        number::steady(*arith),
        w >= 1,
        h >= 1,
        src@.len() == w * h,
        kernel@.len() == 2 * r + 1,
    ensures
        out@ == blurred(*arith, src@, w as int, h as int, kernel@, down),
{
    let len: usize = kernel.len();
    let mut norm = Real { bits: ZERO };
    let mut t: usize = 0;
    while t < len
        invariant
            number::steady(*arith),
            len == kernel@.len(),
            t <= len,
            norm == total_of(*arith, kernel@, t as nat),
        decreases len - t,
    {
        norm = number::ask(arith, Op::Plus, norm, kernel[t]);
        t = t + 1;
    }
    let n: usize = src.len();
    let mut out: Vec<Real> = Vec::with_capacity(n);
    let mut k: usize = 0;
    while k < n
        invariant
            number::steady(*arith),
            w >= 1,
            h >= 1,
            n == src@.len(),
            src@.len() == w * h,
            len == kernel@.len(),
            kernel@.len() == 2 * r + 1,
            norm == total_of(*arith, kernel@, kernel@.len()),
            k <= n,
            out@.len() == k,
            forall|i: int|
                0 <= i < k ==> #[trigger] out@[i] == number::over(
                    *arith,
                    weighted(
                        *arith,
                        kernel@,
                        taps_at(src@, w as int, h as int, r as int, down, i),
                        kernel@.len(),
                    ),
                    norm,
                ),
        decreases n - k,
    {
        let x: usize = k % w;
        let y: usize = k / w;
        proof {
            grid::lemma_cell(w as int, h as int, k as int);
        }
        let ghost taps = taps_at(src@, w as int, h as int, r as int, down, k as int);
        let mut acc = Real { bits: ZERO };
        let mut t: usize = 0;
        while t < len
            invariant
                number::steady(*arith),
                w >= 1,
                h >= 1,
                src@.len() == w * h,
                len == kernel@.len(),
                t <= len,
                x < w,
                y < h,
                x == k as int % w as int,
                y == k as int / w as int,
                taps == taps_at(src@, w as int, h as int, r as int, down, k as int),
                acc == weighted(*arith, kernel@, taps, t as nat),
            decreases len - t,
        {
            let px: usize = if down {
                x
            } else {
                pinned(x, t as u64, r, w)
            };
            let py: usize = if down {
                pinned(y, t as u64, r, h)
            } else {
                y
            };
            proof {
                grid::lemma_index(w as int, h as int, px as int, py as int);
                assert(src.len() == src@.len());
            }
            let v = src[py * w + px];
            assert(v == taps(t as int));
            let p = number::ask(arith, Op::Times, kernel[t], v);
            acc = number::ask(arith, Op::Plus, acc, p);
            t = t + 1;
        }
        out.push(number::ask(arith, Op::Over, acc, norm));
        k = k + 1;
    }
    assert(out@ =~= blurred(*arith, src@, w as int, h as int, kernel@, down));
    out
}

/// Separable Gaussian blur with clamped edges.
pub fn gaussian<F: Fn(Op, Real, Real) -> Real>(
    src: &Vec<Real>,
    w: usize,
    h: usize,
    sigma: Real,
    arith: &F,
) -> (r: Vec<Real>)
    requires
        number::steady(*arith),
        w >= 1,
        h >= 1,
        src@.len() == w * h,
    ensures
        r@ == gaussian_of(*arith, src@, w as int, h as int, sigma),
{
    let (kernel, r) = kernel_for(sigma, arith);
    proof {
        assert(kernel@.len() == 2 * r + 1);
    }
    let pass = blur(src, w, h, &kernel, r, false, arith);
    blur(&pass, w, h, &kernel, r, true, arith)
}


// ---------------------------------------------------------------------------
// Height fields
// ---------------------------------------------------------------------------

/// A conditioned height field in millimetres: zero is the front of the relief
/// and the values run negative into it.
#[derive(Debug, Clone)]
pub struct HeightField {
    pub w: usize,
    pub h: usize,
    pub z: Vec<Real>,
    /// Carried through from the source for the step-size check.
    pub bits: BitDepth,
}

/// The lowest of the first `n` numbers and zero.
pub open spec fn lowest(z: Seq<Real>, n: nat) -> Real
    decreases n,
{
    if n == 0 {
        Real { bits: ZERO }
    } else {
        lowest(z, (n - 1) as nat).smaller(z[n - 1])
    }
}

impl HeightField {
    /// A sample for every grid vertex, and at least one vertex.
    pub open spec fn wf(self) -> bool {
        self.w >= 1 && self.h >= 1 && self.z@.len() == self.w * self.h
    }

    pub open spec fn height(self, i: int, j: int) -> Real {
        self.z@[j * self.w + i]
    }

    pub fn at(&self, i: usize, j: usize) -> (r: Real)
        requires
            self.wf(),
            i < self.w,
            j < self.h,
        ensures
            r == self.height(i as int, j as int),
    {
        proof {
            grid::lemma_index(self.w as int, self.h as int, i as int, j as int);
            assert(self.z.len() == self.z@.len());
        }
        self.z[j * self.w + i]
    }

    /// Sample with edge clamping, for difference stencils on the border.
    pub fn at_clamped(&self, i: isize, j: isize) -> (r: Real)
        requires
            self.wf(),
            self.w <= isize::MAX,
            self.h <= isize::MAX,
        ensures
            r == self.height(grid::pin(i as int, self.w as int), grid::pin(j as int, self.h as int)),
    {
        let i: usize = if i < 0 {
            0
        } else if i >= self.w as isize {
            self.w - 1
        } else {
            i as usize
        };
        let j: usize = if j < 0 {
            0
        } else if j >= self.h as isize {
            self.h - 1
        } else {
            j as usize
        };
        self.at(i, j)
    }

    /// Deepest point, as a positive depth.
    pub open spec fn deepest(self) -> Real {
        lowest(self.z@, self.z@.len()).opposite()
    }

    /// Deepest point, as a positive depth.
    pub fn depth(&self) -> (r: Real)
        ensures
            r == self.deepest(),
    {
        let mut low = Real { bits: ZERO };
        let mut k: usize = 0;
        while k < self.z.len()
            invariant
                k <= self.z@.len(),
                low == lowest(self.z@, k as nat),
            decreases self.z@.len() - k,
        {
            low = low.min(self.z[k]);
            k = k + 1;
        }
        low.neg()
    }
}

/// Every value taken from one.
pub open spec fn flipped<F: Fn(Op, Real, Real) -> Real>(arith: F, v: Seq<Real>) -> Seq<Real> {
    Seq::new(v.len(), |k: int| number::minus(arith, Real { bits: ONE }, v[k]))
}

/// The smallest and the largest of the first `n` numbers.
pub open spec fn extremes(v: Seq<Real>, n: nat) -> (Real, Real)
    decreases n,
{
    if n == 0 {
        (Real { bits: INFINITY }, Real { bits: NEG_INFINITY })
    } else {
        let (lo, hi) = extremes(v, (n - 1) as nat);
        (lo.smaller(v[n - 1]), hi.larger(v[n - 1]))
    }
}

/// The width of the range, or one where there is none.
pub open spec fn spread<F: Fn(Op, Real, Real) -> Real>(arith: F, lo: Real, hi: Real) -> Real {
    if lo.below(hi) {
        number::minus(arith, hi, lo)
    } else {
        Real { bits: ONE }
    }
}

/// A sample's height: stretched to the full range, clipped to the window, and
/// scaled so that near sits at zero and far at the emboss depth.
pub open spec fn height_of<F: Fn(Op, Real, Real) -> Real>(
    arith: F,
    p: Params,
    lo: Real,
    hi: Real,
    x: Real,
) -> Real {
    let t = number::over(arith, number::minus(arith, x, lo), spread(arith, lo, hi)).between(
        p.near,
        p.far,
    );
    number::over(
        arith,
        number::times(arith, p.emboss_mm.opposite(), number::minus(arith, t, p.near)),
        number::minus(arith, p.far, p.near),
    )
}

impl DepthMap {
    /// The samples after inversion, blur and median, in that order.
    pub open spec fn filtered<F: Fn(Op, Real, Real) -> Real>(self, arith: F, p: Params) -> Seq<
        Real,
    > {
        let (w, h) = (self.width as int, self.height as int);
        let a = if p.invert {
            flipped(arith, self.data@)
        } else {
            self.data@
        };
        let b = if (Real { bits: ZERO }).below(p.presmooth) && self.bits == BitDepth::Eight {
            gaussian_of(arith, a, w, h, p.presmooth)
        } else {
            a
        };
        if p.filter_size > 1 {
            median_of(b, w, h, p.filter_size as int)
        } else {
            b
        }
    }

    /// The field that conditioning gives.
    pub open spec fn conditioned<F: Fn(Op, Real, Real) -> Real>(
        self,
        arith: F,
        p: Params,
        f: HeightField,
    ) -> bool {
        let v = self.filtered(arith, p);
        let (lo, hi) = extremes(v, v.len());
        &&& f.wf()
        &&& f.w == self.width
        &&& f.h == self.height
        &&& f.bits == self.bits
        &&& f.z@ == Seq::new(v.len(), |k: int| height_of(arith, p, lo, hi, v[k]))
    }

    /// Invert, blur, median filter, normalise, window, emboss.
    ///
    /// The filters run on the raw values, so that they see real depth spikes;
    /// normalisation stretches whatever survives, and only then is the near/far
    /// window applied. The blur is for 8-bit sources only: 16-bit input has no
    /// staircase worth breaking.
    pub fn condition<F: Fn(Op, Real, Real) -> Real>(&self, params: &Params, arith: &F) -> (r:
        HeightField)
        requires
            number::steady(*arith),
            self.wf(),
            params.near.at_most(params.far),
            params.filter_size <= 5,
        ensures
            self.conditioned(*arith, *params, r),
    {
        let w: usize = self.width as usize;
        let h: usize = self.height as usize;
        let mut v: Vec<Real> = if params.invert {
            flip(&self.data, arith)
        } else {
            copied(&self.data)
        };
        if (Real { bits: ZERO }).lt(params.presmooth) && self.bits == BitDepth::Eight {
            v = gaussian(&v, w, h, params.presmooth, arith);
        }
        if params.filter_size > 1 {
            v = median(&v, w, h, params.filter_size as usize);
        }
        assert(v@ == self.filtered(*arith, *params));
        let mut lo = Real { bits: INFINITY };
        let mut hi = Real { bits: NEG_INFINITY };
        let mut k: usize = 0;
        while k < v.len()
            invariant
                k <= v@.len(),
                (lo, hi) == extremes(v@, k as nat),
            decreases v@.len() - k,
        {
            lo = lo.min(v[k]);
            hi = hi.max(v[k]);
            k = k + 1;
        }
        let span = if lo.lt(hi) {
            number::ask(arith, Op::Minus, hi, lo)
        } else {
            Real { bits: ONE }
        };
        let window = number::ask(arith, Op::Minus, params.far, params.near);
        let depth = params.emboss_mm.neg();
        let mut z: Vec<Real> = Vec::with_capacity(v.len());
        let mut k: usize = 0;
        while k < v.len()
            invariant
                number::steady(*arith),
                params.near.at_most(params.far),
                span == spread(*arith, lo, hi),
                window == number::minus(*arith, params.far, params.near),
                depth == params.emboss_mm.opposite(),
                k <= v@.len(),
                z@ == Seq::new(k as nat, |k: int| height_of(*arith, *params, lo, hi, v@[k])),
            decreases v@.len() - k,
        {
            let above = number::ask(arith, Op::Minus, v[k], lo);
            let t = number::ask(arith, Op::Over, above, span).clamp(params.near, params.far);
            let past = number::ask(arith, Op::Minus, t, params.near);
            let deep = number::ask(arith, Op::Times, depth, past);
            z.push(number::ask(arith, Op::Over, deep, window));
            k = k + 1;
            assert(z@ =~= Seq::new(k as nat, |k: int| height_of(*arith, *params, lo, hi, v@[k])));
        }
        HeightField { w, h, z, bits: self.bits }
    }

    /// The field that resampling and conditioning give.
    pub open spec fn relief<F: Fn(Op, Real, Real) -> Real>(
        self,
        arith: F,
        p: Params,
        f: HeightField,
    ) -> bool {
        exists|m: DepthMap| #[trigger]
            self.resized_to(
                arith,
                params::grid_side(p.size_px, self.width, self.height) as nat,
                params::grid_side(p.size_px, self.height, self.width) as nat,
                m,
            ) && m.conditioned(arith, p, f)
    }

    /// Resample and condition in one step. An empty depth window is refused.
    pub fn to_height_field<F: Fn(Op, Real, Real) -> Real>(&self, params: &Params, arith: &F) -> (r:
        Result<HeightField, Error>)
        requires
            number::steady(*arith),
            self.wf(),
            !params.near.nan(),
            !params.far.nan(),
            params.filter_size <= 5,
            params::grid_side(params.size_px, self.width, self.height) * params::grid_side(
                params.size_px,
                self.height,
                self.width,
            ) <= usize::MAX,
        ensures
            r is Err <==> params.far.at_most(params.near),
            r matches Err(e) ==> e == (Error::EmptyDepthWindow {
                near: params.near,
                far: params.far,
            }),
            r matches Ok(f) ==> self.relief(*arith, *params, f),
    {
        params.validate()?;
        let (w, h) = self.grid(params);
        let m = self.resized(w, h, arith);
        let f = m.condition(params, arith);
        assert(self.resized_to(
            *arith,
            params::grid_side(params.size_px, self.width, self.height) as nat,
            params::grid_side(params.size_px, self.height, self.width) as nat,
            m,
        ));
        Ok(f)
    }
}

fn flip<F: Fn(Op, Real, Real) -> Real>(v: &Vec<Real>, arith: &F) -> (r: Vec<Real>)
    requires
        number::steady(*arith),
    ensures
        r@ == flipped(*arith, v@),
{
    let mut r: Vec<Real> = Vec::with_capacity(v.len());
    let mut k: usize = 0;
    while k < v.len()
        invariant
            number::steady(*arith),
            k <= v@.len(),
            r@ == Seq::new(
                k as nat,
                |k: int| number::minus(*arith, Real { bits: ONE }, v@[k]),
            ),
        decreases v@.len() - k,
    {
        r.push(number::ask(arith, Op::Minus, Real { bits: ONE }, v[k]));
        k = k + 1;
        assert(r@ =~= Seq::new(
            k as nat,
            |k: int| number::minus(*arith, Real { bits: ONE }, v@[k]),
        ));
    }
    r
}

// ---------------------------------------------------------------------------
// Photos
// ---------------------------------------------------------------------------

/// A photo to colour the relief with, resampled onto the mesh grid.
#[derive(Debug, Clone)]
pub struct Albedo {
    pub w: usize,
    pub h: usize,
    /// Red, green and blue for each grid vertex.
    pub rgb: Vec<[u8; 3]>,
}

pub open spec fn at_least_one(n: usize) -> u32 {
    if n < 1 {
        1
    } else {
        n as u32
    }
}

/// The channels in threes; a rest of one or two is dropped.
pub open spec fn triples(channels: Seq<u8>) -> Seq<[u8; 3]> {
    Seq::new(
        channels.len() / 3,
        |k: int| [channels[3 * k], channels[3 * k + 1], channels[3 * k + 2]],
    )
}

/// The last index of a list of `n`, or zero.
pub open spec fn last(n: usize) -> int {
    if n == 0 {
        0
    } else {
        n - 1
    }
}

impl Albedo {
    /// Decode and resample a photo onto a `w × h` grid, stretching to fit. What
    /// becomes of the resampled channels is said by [`Albedo::from_dynamic`].
    pub fn decode(bytes: &[u8], w: usize, h: usize) -> (r: Result<Self, Error>)
        requires
            w <= MAX_SIDE,
            h <= MAX_SIDE,
        ensures
            match decoded(bytes@) {
                None => r matches Err(e) && e is Decode,
                Some(_) => r matches Ok(a) && a.w == w && a.h == h && a.rgb@.len() == at_least_one(
                    w,
                ) * at_least_one(h) && exists|v: Seq<u8>|
                    #[trigger] resampled(bytes@, at_least_one(w), at_least_one(h), v) && a.rgb@
                        == triples(v),
            },
    {
        let cw: u32 = if w < 1 {
            1
        } else {
            w as u32
        };
        let ch: u32 = if h < 1 {
            1
        } else {
            h as u32
        };
        match rescale_image(bytes, cw, ch) {
            Ok(channels) => {
                assert(resampled(bytes@, at_least_one(w), at_least_one(h), channels@));
                Ok(Self::from_dynamic(&channels, w, h))
            },
            Err(e) => Err(Error::Decode(e)),
        }
    }

    /// The channels of a photo already resampled to the grid.
    pub fn from_dynamic(channels: &Vec<u8>, w: usize, h: usize) -> (r: Self)
        ensures
            r.w == w,
            r.h == h,
            r.rgb@ == triples(channels@),
    {
        let n: usize = channels.len() / 3;
        let mut rgb: Vec<[u8; 3]> = Vec::with_capacity(n);
        let mut k: usize = 0;
        while k < n
            invariant
                n == channels@.len() as int / 3,
                k <= n,
                rgb@.len() == k,
                forall|i: int| 0 <= i < k ==> #[trigger] rgb@[i] == triples(channels@)[i],
            decreases n - k,
        {
            assert(channels.len() == channels@.len());
            rgb.push([channels[3 * k], channels[3 * k + 1], channels[3 * k + 2]]);
            k = k + 1;
        }
        assert(rgb@ =~= triples(channels@));
        Albedo { w, h, rgb }
    }

    /// The colour nearest to a grid vertex, grey where there is none.
    pub open spec fn tint(self, i: int, j: int) -> [u8; 3] {
        let x = if i < last(self.w) {
            i
        } else {
            last(self.w)
        };
        let y = if j < last(self.h) {
            j
        } else {
            last(self.h)
        };
        let k = y * self.w + x;
        if k < self.rgb@.len() {
            self.rgb@[k]
        } else {
            [0x80, 0x80, 0x80]
        }
    }

    pub fn at(&self, i: usize, j: usize) -> (r: [u8; 3])
        requires
            self.w * self.h <= usize::MAX,
        ensures
            r == self.tint(i as int, j as int),
    {
        let last_x: usize = if self.w == 0 {
            0
        } else {
            self.w - 1
        };
        let last_y: usize = if self.h == 0 {
            0
        } else {
            self.h - 1
        };
        let x: usize = if i < last_x {
            i
        } else {
            last_x
        };
        let y: usize = if j < last_y {
            j
        } else {
            last_y
        };
        proof {
            if self.w >= 1 && self.h >= 1 {
                grid::lemma_index(self.w as int, self.h as int, x as int, y as int);
            } else if self.w >= 1 {
                assert(y * self.w == 0) by (nonlinear_arith)
                    requires
                        y == 0,
                ;
            } else {
                assert(y * self.w == 0) by (nonlinear_arith)
                    requires
                        self.w == 0,
                ;
            }
        }
        let k: usize = y * self.w + x;
        if k < self.rgb.len() {
            self.rgb[k]
        } else {
            [0x80, 0x80, 0x80]
        }
    }
}

/// The bits of 0.02.
pub const ASPECT_SLACK: u32 = 0x3ca3_d70a;

/// The photo's shape is more than two percent off the depth map's.
pub open spec fn misfit<F: Fn(Op, Real, Real) -> Real>(
    arith: F,
    depth: DepthMap,
    photo_w: u32,
    photo_h: u32,
) -> bool {
    let want = depth.shape(arith);
    let got = number::over(arith, number::whole(photo_w as nat), number::whole(photo_h as nat));
    number::times(arith, Real { bits: ASPECT_SLACK }, want).below(
        number::minus(arith, want, got).unsigned(),
    )
}

/// Refuse a photo whose shape cannot line up with the depth map. Two percent
/// covers the off-by-one that a depth model's own resampling introduces.
pub fn check_aspect<F: Fn(Op, Real, Real) -> Real>(
    depth: &DepthMap,
    photo_w: u32,
    photo_h: u32,
    arith: &F,
) -> (r: Result<(), Error>)
    requires
        number::steady(*arith),
    ensures
        r is Err <==> misfit(*arith, *depth, photo_w, photo_h),
        r matches Err(e) ==> e == (Error::AspectMismatch {
            photo_w,
            photo_h,
            depth_w: depth.width,
            depth_h: depth.height,
        }),
{
    let want = depth.aspect(arith);
    let got = number::ask(
        arith,
        Op::Over,
        Real::from_int(photo_w as u64),
        Real::from_int(photo_h as u64),
    );
    let slack = number::ask(arith, Op::Times, Real { bits: ASPECT_SLACK }, want);
    let gap = number::ask(arith, Op::Minus, want, got).abs();
    if slack.lt(gap) {
        Err(
            Error::AspectMismatch {
                photo_w,
                photo_h,
                depth_w: depth.width,
                depth_h: depth.height,
            },
        )
    } else {
        Ok(())
    }
}

// ---------------------------------------------------------------------------
// Laws
// ---------------------------------------------------------------------------

/// Only places in `a..b` hold `v`, so there are no more than `b - a` of it.
proof fn lemma_count_range(s: Seq<Real>, v: Real, a: int, b: int)
    requires
        0 <= a <= b,
        forall|i: int| 0 <= i < s.len() && #[trigger] s[i] == v ==> a <= i < b,
    ensures
        s.to_multiset().count(v) <= b - a,
    decreases s.len(), b - a,
{
    s.to_multiset_ensures();
    if s.len() > 0 {
        let t = s.drop_last();
        t.to_multiset_ensures();
        assert(s =~= t.push(s.last()));
        if s.last() == v {
            let n = s.len() - 1;
            assert(s[n] == v);
            assert forall|i: int| 0 <= i < t.len() && #[trigger] t[i] == v implies a <= i < n by {
                assert(s[i] == v);
            }
            lemma_count_range(t, v, a, n);
        } else {
            assert forall|i: int| 0 <= i < t.len() && #[trigger] t[i] == v implies a <= i < b by {
                assert(s[i] == v);
            }
            lemma_count_range(t, v, a, b);
        }
    }
}

/// A median makes nothing up: it is one of the samples in its window.
pub proof fn law_median_is_a_sample(src: Seq<Real>, w: int, h: int, r: int, x: int, y: int)
    requires
        r >= 0,
    ensures
        window_of(src, w, h, r, x, y).contains(median_at(src, w, h, r, x, y)),
{
    let s = window_of(src, w, h, r, x, y);
    let side = 2 * r + 1;
    assert(side * side >= 1) by (nonlinear_arith)
        requires
            side >= 1,
    ;
    lemma_ordered(s);
    ordered(s).to_multiset_ensures();
    s.to_multiset_ensures();
    let m = median_at(src, w, h, r, x, y);
    assert(ordered(s).contains(m));
    assert(ordered(s).to_multiset().contains(m));
}

/// A median removes a spike and keeps an edge: the value that more than half of
/// the window has is the value that comes out.
pub proof fn law_majority_wins(
    src: Seq<Real>,
    w: int,
    h: int,
    r: int,
    x: int,
    y: int,
    v: Real,
)
    requires
        r >= 0,
        forall|i: int|
            0 <= i < window_of(src, w, h, r, x, y).len() ==> !(#[trigger] window_of(
                src,
                w,
                h,
                r,
                x,
                y,
            )[i]).nan(),
        2 * window_of(src, w, h, r, x, y).to_multiset().count(v) > window_of(
            src,
            w,
            h,
            r,
            x,
            y,
        ).len(),
    ensures
        median_at(src, w, h, r, x, y).rank() == v.rank(),
{
    let s = window_of(src, w, h, r, x, y);
    let side = 2 * r + 1;
    assert(side * side >= 1 && (side * side) % 2 == 1) by (nonlinear_arith)
        requires
            side == 2 * r + 1,
            r >= 0,
    {
        assert(side * side == 2 * (2 * r * r + 2 * r) + 1);
    }
    lemma_ordered(s);
    let o = ordered(s);
    let mid = s.len() as int / 2;
    if o[mid].rank() > v.rank() {
        assert forall|i: int| 0 <= i < o.len() && #[trigger] o[i] == v implies 0 <= i < mid by {
            if i >= mid {
                assert(o[mid].rank() <= o[i].rank());
            }
        }
        lemma_count_range(o, v, 0, mid);
    } else if o[mid].rank() < v.rank() {
        assert forall|i: int| 0 <= i < o.len() && #[trigger] o[i] == v implies mid + 1 <= i
            < o.len() by {
            if i <= mid {
                assert(o[i].rank() <= o[mid].rank());
            }
        }
        lemma_count_range(o, v, mid + 1, o.len() as int);
    }
}

/// What lies in front of the near plane is one plateau, and what lies behind the
/// far plane is another.
pub proof fn law_window_flattens<F: Fn(Op, Real, Real) -> Real>(
    arith: F,
    p: Params,
    lo: Real,
    hi: Real,
    a: Real,
    b: Real,
)
    requires
        p.near.at_most(p.far),
    ensures
        ({
            let place = |x: Real|
                number::over(arith, number::minus(arith, x, lo), spread(arith, lo, hi));
            ||| place(a).below(p.near) && place(b).below(p.near)
            ||| p.far.below(place(a)) && p.far.below(place(b))
        }) ==> height_of(arith, p, lo, hi, a) == height_of(arith, p, lo, hi, b),
{
}

/// Inverting is the same as inverting the source file.
pub proof fn law_inverting_inverts_the_source<F: Fn(Op, Real, Real) -> Real>(
    arith: F,
    m: DepthMap,
    n: DepthMap,
    p: Params,
)
    requires
        n.width == m.width,
        n.height == m.height,
        n.bits == m.bits,
        n.data@ == flipped(arith, m.data@),
    ensures
        m.filtered(arith, Params { invert: true, ..p }) == n.filtered(
            arith,
            Params { invert: false, ..p },
        ),
{
}

/// The blur is for 8-bit sources: a 16-bit one is the same without.
pub proof fn law_blur_is_for_eight_bits<F: Fn(Op, Real, Real) -> Real>(
    arith: F,
    m: DepthMap,
    p: Params,
    presmooth: Real,
)
    requires
        m.bits == BitDepth::Sixteen,
    ensures
        m.filtered(arith, p) == m.filtered(arith, Params { presmooth, ..p }),
{
}

/// A window of one pixel and a blur of none leave every sample as it is.
pub proof fn law_filters_can_be_switched_off<F: Fn(Op, Real, Real) -> Real>(
    arith: F,
    m: DepthMap,
    p: Params,
)
    requires
        p.filter_size == 1,
        p.presmooth == (Real { bits: ZERO }),
        !p.invert,
    ensures
        m.filtered(arith, p) == m.data@,
{
}

} // verus!
