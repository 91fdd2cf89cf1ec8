//! Rectangles in source-image coordinates, and the bounding box of the
//! four corner-marker matches.

use vstd::prelude::*;
use vstd::math::{max, min};

verus! {

/// A rectangle in image coordinates: origin plus extent.
///
/// A match of a corner template is reported as a `Rect` whose origin is
/// the best-scoring location and whose extent is the template's own size.
#[derive(Clone, Copy, Debug, PartialEq, Eq, Structural)]
pub struct Rect {
    pub x: usize,
    pub y: usize,
    pub width: usize,
    pub height: usize,
}

impl Rect {
    /// One past the rightmost column covered by the rectangle.
    pub open spec fn right(self) -> int {
        self.x + self.width
    }

    /// One past the bottommost row covered by the rectangle.
    pub open spec fn bottom(self) -> int {
        self.y + self.height
    }

    /// The rectangle's extent stays within the machine's word size.
    pub open spec fn fits(self) -> bool {
        self.right() <= usize::MAX && self.bottom() <= usize::MAX
    }
}

/// The smallest x origin among the four rectangles.
pub open spec fn spec_min_x(a: Rect, b: Rect, c: Rect, d: Rect) -> int {
    min(min(a.x as int, b.x as int), min(c.x as int, d.x as int))
}

/// The smallest y origin among the four rectangles.
pub open spec fn spec_min_y(a: Rect, b: Rect, c: Rect, d: Rect) -> int {
    min(min(a.y as int, b.y as int), min(c.y as int, d.y as int))
}

/// The greatest right edge among the four rectangles.
pub open spec fn spec_max_right(a: Rect, b: Rect, c: Rect, d: Rect) -> int {
    max(max(a.right(), b.right()), max(c.right(), d.right()))
}

/// The greatest bottom edge among the four rectangles.
pub open spec fn spec_max_bottom(a: Rect, b: Rect, c: Rect, d: Rect) -> int {
    max(max(a.bottom(), b.bottom()), max(c.bottom(), d.bottom()))
}

fn min_val(a: usize, b: usize) -> (r: usize)
    ensures
        r == min(a as int, b as int),
{
    if a < b {
        a
    } else {
        b
    }
}

fn max_val(a: usize, b: usize) -> (r: usize)
    ensures
        r == max(a as int, b as int),
{
    if a > b {
        a
    } else {
        b
    }
}

/// The minimal bounding rectangle enclosing all four corner matches.
///
/// The box is taken over all four matches regardless of which corner each
/// nominally came from, so the crop tolerates matches that land in
/// unexpected relative positions.
pub fn union_rect(a: &Rect, b: &Rect, c: &Rect, d: &Rect) -> (r: Rect)
    requires
        a.fits(),
        b.fits(),
        c.fits(),
        d.fits(),
    ensures
        r.x == spec_min_x(*a, *b, *c, *d),
        r.y == spec_min_y(*a, *b, *c, *d),
        r.right() == spec_max_right(*a, *b, *c, *d),
        r.bottom() == spec_max_bottom(*a, *b, *c, *d),
{
    let min_x = min_val(min_val(a.x, b.x), min_val(c.x, d.x));
    let min_y = min_val(min_val(a.y, b.y), min_val(c.y, d.y));
    let max_r = max_val(max_val(a.x + a.width, b.x + b.width), max_val(c.x + c.width, d.x + d.width));
    let max_b = max_val(max_val(a.y + a.height, b.y + b.height), max_val(c.y + c.height, d.y + d.height));
    Rect { x: min_x, y: min_y, width: max_r - min_x, height: max_b - min_y }
}

} // verus!
