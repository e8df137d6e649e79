//! Everything that can go wrong turning an image into a solid.

use vstd::prelude::*;
use crate::number::Real;
use crate::text;

verus! {

/// `image::ImageError`: why the image decoder or encoder gave up. Nothing is
/// known of its contents.
#[verifier::external_type_specification]
#[verifier::external_body]
pub struct ExImageError(image::ImageError);

#[derive(Debug)]
pub enum Error {
    /// The bytes are not an image that can be read, or the image could not be
    /// encoded.
    Decode(image::ImageError),
    /// The depth map is smaller than two by two.
    TooSmall { width: u32, height: u32 },
    /// The near plane is not below the far plane: nothing is left between them.
    EmptyDepthWindow { near: Real, far: Real },
    /// The photo's shape differs too much from the depth map's to line up.
    AspectMismatch { photo_w: u32, photo_h: u32, depth_w: u32, depth_h: u32 },
}

/// Calls `image::ImageError`'s `Display`. Nothing is claimed of the text: the
/// error itself is opaque.
#[verifier::external_body]
fn describe(e: &image::ImageError) -> (r: String) {
    format!("{e}")
}

impl Error {
    /// What a person is told of the error. What the image library says of a
    /// file it cannot read is its own.
    pub open spec fn told<P: Fn(Real) -> String>(self, plain: P, t: Seq<char>) -> bool {
        match self {
            Error::Decode(_) => exists|why: Seq<char>|
                t == #[trigger] ("that file is not an image this app can read: "@ + why),
            Error::TooSmall { width, height } => t == "the depth map is "@ + text::size(width, height)
                + "; it must be at least 2×2"@,
            Error::EmptyDepthWindow { near, far } => t == "the near plane ("@ + text::plainly(
                plain,
                near,
            ) + ") must be below the far plane ("@ + text::plainly(plain, far)
                + ") — nothing is left between them"@,
            Error::AspectMismatch { photo_w, photo_h, depth_w, depth_h } => t == "the photo is "@
                + text::size(photo_w, photo_h) + " but the depth map is "@ + text::size(depth_w, depth_h)
                + "; their shapes differ too much to line up"@,
        }
    }

    /// What the image library says of the error, where it is one of its own,
    /// and the error in words where it is not.
    pub(crate) fn reason<P: Fn(Real) -> String>(&self, plain: &P) -> (r: String)
        requires
            text::steady_plain(*plain),
        ensures
            self is Decode || self.told(*plain, r@),
    {
        match self {
            Error::Decode(e) => describe(e),
            _ => self.message(plain),
        }
    }

    /// The error in words.
    pub fn message<P: Fn(Real) -> String>(&self, plain: &P) -> (r: String)
        requires
            text::steady_plain(*plain),
        ensures
            self.told(*plain, r@),
    {
        match self {
            Error::Decode(e) => {
                let mut r = "that file is not an image this app can read: ".to_owned();
                let why = describe(e);
                r.append(why.as_str());
                assert(r@ == "that file is not an image this app can read: "@ + why@);
                r
            },
            Error::TooSmall { width, height } => {
                let mut r = "the depth map is ".to_owned();
                text::append_size(&mut r, *width, *height);
                r.append("; it must be at least 2×2");
                r
            },
            Error::EmptyDepthWindow { near, far } => {
                let mut r = "the near plane (".to_owned();
                r.append(plain(*near).as_str());
                r.append(") must be below the far plane (");
                r.append(plain(*far).as_str());
                r.append(") — nothing is left between them");
                r
            },
            Error::AspectMismatch { photo_w, photo_h, depth_w, depth_h } => {
                let mut r = "the photo is ".to_owned();
                text::append_size(&mut r, *photo_w, *photo_h);
                r.append(" but the depth map is ");
                text::append_size(&mut r, *depth_w, *depth_h);
                r.append("; their shapes differ too much to line up");
                r
            },
        }
    }
}

} // verus!
