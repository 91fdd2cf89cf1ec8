//! Composes screenshot-like images, each framed by four corner markers,
//! into a single grid-tiled collage.
//!
//! The pipeline: locate the four markers in each source image (template
//! matching is an external primitive; its results arrive as rectangles),
//! crop each source to the bounding box of its four matches, gather the
//! crops into rows of a fixed column count, rescale each row member to the
//! row's height, concatenate rows horizontally, pad narrow rows, and stack
//! all rows vertically into the final composite.

use vstd::prelude::*;

pub mod compose;
pub mod geometry;
pub mod image;
pub mod layout;

verus! {

/// The ways the tiling pipeline can reject its input.
#[derive(Clone, Copy, Debug, PartialEq, Eq, Structural)]
pub enum TileError {
    /// No images were supplied.
    EmptyInput,
    /// An image's pixel rows do not match its stated dimensions.
    MalformedImage,
    /// Images destined for one composite disagree on channel count.
    ChannelMismatch,
    /// An image with zero height (or width) cannot be rescaled into a row.
    EmptyImage,
    /// The crop region is empty or reaches outside the source image.
    RegionOutOfBounds,
    /// An intermediate dimension does not fit in the machine's word size.
    TooLarge,
}

} // verus!
