//! Grayscale depth map to watertight bas-relief solid.
//!
//! A depth map is a height field: one pixel becomes one vertex, two triangles
//! per pixel quad, and the sheet is sealed into a printable solid by a frame.
//!
//! * **Watertight by construction.** Border indices are shared when the solid is
//!   laid out, so the mesh is closed by definition: see `mesh::law_watertight`.
//! * **Simplified within bounds.** A restricted quadtree drops the vertices that
//!   a tolerance does not need, and stitches what is left without cracks: see
//!   [`decimate`].
//! * **The preview is chunked.** [`tiles`] cuts the surface into blocks small
//!   enough for a GPU buffer, with normals taken from the height field so seams
//!   are invisible.
//! * **Files are streamed.** Vertex positions come from their index on demand and
//!   triangles are listed a few at a time, so a file of any size passes through a
//!   small buffer: see [`export::stream`].
//! * **A frame of zero width is no frame.** The relief's sides then drop straight
//!   to the back plate.
//!
//! # Coordinate space
//!
//! One space, used everywhere: **x right, y up, z out of the relief towards the
//! viewer**, in millimetres. The relief occupies `z` in `[-emboss_mm, 0]`, the
//! frame face sits at `z = frame_near_mm`, and the back plate at
//! `z = -(emboss_mm + frame_back_mm)`. The export unit scales the numbers
//! written into a file and nothing else.
//!
//! # Numbers
//!
//! Numbers are held by their bit patterns ([`number`]). Everything that is exact
//! is worked out on the bits; rounded arithmetic is handed in by the caller.
//! What holds whatever that arithmetic is, as long as it rounds ([`rounding`]), is
//! stated in [`measure`], [`heights`], [`resampling`], [`filters`], [`shading`],
//! [`pictures`], [`deviation`], [`figures`] and [`controls`].

pub mod bits;
pub mod check;
pub mod cli;
pub mod controls;
pub mod count;
pub mod decimate;
pub mod depth;
pub mod deviation;
pub mod error;
pub mod export;
pub mod figures;
pub mod filters;
pub mod fit;
pub mod full;
pub mod grid;
pub mod heights;
pub mod listing;
pub mod measure;
pub mod mesh;
pub mod number;
pub mod numbering;
pub mod panel;
pub mod params;
pub mod patch;
pub mod pictures;
pub mod plateau;
pub mod platform;
pub mod progress;
pub mod quadtree;
pub mod rebuild;
pub mod refine;
pub mod resampling;
pub mod rounding;
pub mod sample;
pub mod shading;
pub mod square;
pub mod state;
pub mod stats;
pub mod text;
pub mod tiles;
pub mod topology;
pub mod triangle;
pub mod vector;
pub mod view;

pub use decimate::Decimation;
pub use depth::{BitDepth, DepthMap, HeightField};
pub use error::Error;
pub use export::Format;
pub use mesh::{Layout, Solid};
pub use params::{Orientation, Params, Units};
pub use stats::Stats;
