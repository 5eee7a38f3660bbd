//! Straight lines between tiles: those of `rltk`.

use vstd::prelude::*;

verus! {

/// The tiles of the line from `(x0, y0)` to `(x1, y1)` as
/// `rltk::line2d` draws it by Bresenham's algorithm.
pub uninterp spec fn bresenham_line(x0: i32, y0: i32, x1: i32, y1: i32) -> Seq<(i32, i32)>;

/// The line from `(x0, y0)` to `(x1, y1)`, by `rltk::line2d` with
/// `LineAlg::Bresenham`. The algorithm works on the differences of the
/// coordinates and their doubles and gathers one tile for every step along
/// the longer side of the line: within the bounds asked for the numbers fit
/// and the line stays short. Its result depends on the two end points alone,
/// which is all that the contract claims: nothing is said of where the tiles
/// of the line lie.
#[verifier::external_body]
pub(crate) fn line2d_bresenham(x0: i32, y0: i32, x1: i32, y1: i32) -> (line: Vec<(i32, i32)>)
    requires
        -0x8000 <= x0 <= 0x8000,
        -0x8000 <= y0 <= 0x8000,
        -0x8000 <= x1 <= 0x8000,
        -0x8000 <= y1 <= 0x8000,
    ensures
        line@ == bresenham_line(x0, y0, x1, y1),
{
    rltk::line2d(rltk::LineAlg::Bresenham, rltk::Point::new(x0, y0), rltk::Point::new(x1, y1))
        .iter()
        .map(|p| (p.x, p.y))
        .collect()
}

} // verus!
