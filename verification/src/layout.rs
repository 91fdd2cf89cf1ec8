//! Layout policy: how many columns the collage gets, and how a row member
//! is rescaled to its row's height.

use vstd::prelude::*;
use vstd::arithmetic::div_mod::lemma_div_multiples_vanish;

verus! {

/// The column count chosen for a given total number of input images.
///
/// A fixed breakpoint table, not a derived formula: counts outside the
/// listed breakpoints fall back to six columns.
pub open spec fn spec_column_count(n: int) -> int {
    if n == 4 {
        2
    } else if n == 5 || n == 6 {
        3
    } else if n == 7 {
        4
    } else {
        6
    }
}

/// Maps the total input-image count to the collage's column count.
pub fn num_columns(n: usize) -> (c: usize)
    ensures
        c == spec_column_count(n as int),
        1 <= c <= 6,
{
    match n {
        4 => 2,
        5 => 3,
        6 => 3,
        7 => 4,
        _ => 6,
    }
}

/// The width of an image of size `w` by `h` once it is rescaled, aspect
/// ratio preserved, to height `target`.
pub open spec fn spec_scaled_width(w: int, h: int, target: int) -> int
    recommends
        h >= 1,
{
    (w * target) / h
}

/// The product of two machine words, computed in a wider type so that it
/// cannot overflow.
pub fn wide_mul(a: usize, b: usize) -> (r: u128)
    ensures
        r == (a as int) * (b as int),
{
    let a128: u128 = a as u128;
    let b128: u128 = b as u128;
    proof {
        assert(a128 * b128 <= u128::MAX && a128 * b128 == (a as int) * (b as int))
            by (nonlinear_arith)
            requires
                a128 == a as int,
                b128 == b as int,
                a128 < 0x1_0000_0000_0000_0000u128,
                b128 < 0x1_0000_0000_0000_0000u128,
        ;
    }
    a128 * b128
}

/// Rescaled width of a `w` by `h` image brought to height `target`,
/// preserving the aspect ratio.
pub fn scaled_width(w: usize, h: usize, target: usize) -> (r: usize)
    requires
        h >= 1,
        spec_scaled_width(w as int, h as int, target as int) <= usize::MAX,
    ensures
        r == spec_scaled_width(w as int, h as int, target as int),
{
    let wide: u128 = wide_mul(w, target);
    let q: u128 = wide / (h as u128);
    q as usize
}

/// Rescaling an image to its own height leaves its width unchanged: the
/// unit scale is a no-op on the dimensions.
pub proof fn lemma_unit_scale(w: int, h: int)
    requires
        h >= 1,
    ensures
        spec_scaled_width(w, h, h) == w,
{
    lemma_div_multiples_vanish(w, h);
    assert(w * h == h * w) by (nonlinear_arith);
}

} // verus!
