//! A 2D vector-graphics core on an integer lattice.
//!
//! Drawing calls become paths: lines, quadratic curves and arcs are split
//! into segments that are monotone in both axes, boxed, and packed into
//! 16-bit texels relative to the box. A cache gives each path a stable place
//! in a shared buffer of texels and asks for its upload once. A frame
//! records one quad for each path drawn. An atlas packs glyph bitmaps into
//! rows and evicts the rows that were used longest ago. Text is laid out in
//! font units.
//!
//! The caller chooses the unit of the lattice; fractions of pixels are had
//! by taking several units to a pixel.

use vstd::prelude::*;

pub mod arc;
pub mod atlas;
pub mod atlas_model;
pub mod cache;
pub mod color;
pub mod curve;
pub mod font;
pub mod fps;
pub mod frame;
pub mod geom;
pub mod path;
pub mod quad;
pub mod texture;

pub use crate::atlas::Atlas;
pub use crate::atlas_model::Rect;
pub use crate::cache::{Cache, FontKey, GlyphEntry, PathKey, Placement};
pub use crate::color::Color;
pub use crate::curve::Command;
pub use crate::font::{Font, Glyph, GlyphKey, TextItem};
pub use crate::fps::FpsCounter;
pub use crate::frame::{Frame, Vertex};
pub use crate::geom::{Extent, Point, Ratio, Vec2, Wide};
pub use crate::path::{Path, PathBuilder};
pub use crate::quad::{corners, pixel_to_ndc, Corner, Mat2x2, Quad};
