//! The sets of points that the drawing operations paint.

use crate::raster::Point;
use vstd::prelude::*;

verus! {

/// The single point `(x, y)`.
pub open spec fn dot(x: int, y: int) -> Set<Point> {
    Set::new(|p: Point| p == (x, y))
}

/// The points at distance at most `radius` from `(cx, cy)`. A radius that is
/// not positive gives the empty set.
pub open spec fn disc(cx: int, cy: int, radius: int) -> Set<Point> {
    Set::new(
        |p: Point|
            radius > 0 && (p.0 - cx) * (p.0 - cx) + (p.1 - cy) * (p.1 - cy) <= radius * radius,
    )
}

/// The mark a brush of the given radius leaves at `(cx, cy)`: a disc where
/// the radius is positive, the single point otherwise.
pub open spec fn brush(cx: int, cy: int, radius: int) -> Set<Point> {
    if radius > 0 {
        disc(cx, cy, radius)
    } else {
        dot(cx, cy)
    }
}

/// A brush covers the point it is put on, whatever its radius.
pub proof fn lemma_brush_center(cx: int, cy: int, radius: int)
    ensures
        brush(cx, cy, radius).contains((cx, cy)),
{
    assert(0 <= radius * radius) by (nonlinear_arith);
    assert((cx - cx) * (cx - cx) + (cy - cy) * (cy - cy) == 0) by (nonlinear_arith);
}

/// The part of a disc that a scan by rows has passed when it stands in row
/// `cy + dy` at column `cx + dx`: the rows above, and in that row the
/// columns to the left.
pub open spec fn disc_before(cx: int, cy: int, radius: int, dy: int, dx: int) -> Set<Point> {
    Set::new(
        |p: Point|
            disc(cx, cy, radius).contains(p) && (p.1 - cy < dy || (p.1 - cy == dy && p.0 - cx
                < dx)),
    )
}

/// A disc lies inside the square around its centre whose side is twice the
/// radius.
pub proof fn lemma_disc_in_square(cx: int, cy: int, radius: int, p: Point)
    requires
        disc(cx, cy, radius).contains(p),
    ensures
        -radius <= p.0 - cx <= radius,
        -radius <= p.1 - cy <= radius,
{
    let u = p.0 - cx;
    let v = p.1 - cy;
    assert(-radius <= u <= radius && -radius <= v <= radius) by (nonlinear_arith)
        requires
            radius > 0,
            u * u + v * v <= radius * radius,
    ;
}

} // verus!
