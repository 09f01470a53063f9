//! What a brush covers when it is drawn along a line, its radius given
//! point by point.

use crate::line::{line_point, line_steps, on_line};
use crate::raster::Point;
use crate::shape::{brush, lemma_brush_center};
use vstd::prelude::*;

verus! {

/// What the brush leaves at point number `k` of the line, where `radii`
/// gives its radius at each point.
pub open spec fn mark(x0: int, y0: int, x1: int, y1: int, radii: Seq<i32>, k: int) -> Set<Point> {
    let at = line_point(x0, y0, x1, y1, k);
    brush(at.0, at.1, radii[k] as int)
}

/// What the brush leaves at the first `count` points of the line.
pub open spec fn stroke_upto(
    x0: int,
    y0: int,
    x1: int,
    y1: int,
    radii: Seq<i32>,
    count: int,
) -> Set<Point> {
    Set::new(
        |p: Point| exists|k: int| 0 <= k < count && #[trigger] mark(x0, y0, x1, y1, radii, k).contains(p),
    )
}

/// What a brush drawn along the whole line covers. `radii` holds one radius
/// for each point of the line.
pub open spec fn stroke(x0: int, y0: int, x1: int, y1: int, radii: Seq<i32>) -> Set<Point> {
    stroke_upto(x0, y0, x1, y1, radii, line_steps(x0, y0, x1, y1) + 1)
}

/// The radius of a brush of diameter `size`: half the diameter, rounded
/// down, for a diameter above one, and no radius at all (a single point)
/// otherwise.
pub open spec fn brush_radius(size: i32) -> i32 {
    if size > 1 {
        (size / 2) as i32
    } else {
        0
    }
}

/// The radii of a brush that keeps one diameter along a line of `steps`
/// steps.
pub open spec fn even_radii(steps: int, size: i32) -> Seq<i32> {
    Seq::new((steps + 1) as nat, |k: int| brush_radius(size))
}

/// Nothing is drawn before the first point of a line.
pub proof fn lemma_stroke_none(x0: int, y0: int, x1: int, y1: int, radii: Seq<i32>)
    ensures
        stroke_upto(x0, y0, x1, y1, radii, 0) == Set::<Point>::empty(),
{
    assert(stroke_upto(x0, y0, x1, y1, radii, 0) =~= Set::<Point>::empty());
}

/// Drawing one more point of a line adds the mark of the brush at that
/// point to what was drawn before.
pub proof fn lemma_stroke_grow(x0: int, y0: int, x1: int, y1: int, radii: Seq<i32>, radius: i32)
    ensures
        stroke_upto(x0, y0, x1, y1, radii.push(radius), radii.len() as int + 1) == stroke_upto(
            x0,
            y0,
            x1,
            y1,
            radii,
            radii.len() as int,
        ).union(mark(x0, y0, x1, y1, radii.push(radius), radii.len() as int)),
{
    let count = radii.len() as int;
    let more = radii.push(radius);
    let before = stroke_upto(x0, y0, x1, y1, radii, count);
    let after = stroke_upto(x0, y0, x1, y1, more, count + 1);
    let last = mark(x0, y0, x1, y1, more, count);
    assert forall|p: Point| after.contains(p) <==> before.union(last).contains(p) by {
        if after.contains(p) {
            let k = choose|k: int| 0 <= k < count + 1 && #[trigger] mark(x0, y0, x1, y1, more, k).contains(p);
            if k < count {
                assert(more[k] == radii[k]);
                assert(mark(x0, y0, x1, y1, radii, k).contains(p));
            }
        }
        if before.contains(p) {
            let k = choose|k: int| 0 <= k < count && #[trigger] mark(x0, y0, x1, y1, radii, k).contains(p);
            assert(more[k] == radii[k]);
            assert(mark(x0, y0, x1, y1, more, k).contains(p));
        }
        if last.contains(p) {
            assert(mark(x0, y0, x1, y1, more, count).contains(p));
        }
    }
    assert(after =~= before.union(last));
}

/// A stroke covers every point of its line.
pub proof fn lemma_stroke_covers_line(
    x0: int,
    y0: int,
    x1: int,
    y1: int,
    radii: Seq<i32>,
    k: int,
)
    requires
        0 <= k <= line_steps(x0, y0, x1, y1),
    ensures
        stroke(x0, y0, x1, y1, radii).contains(line_point(x0, y0, x1, y1, k)),
{
    let at = line_point(x0, y0, x1, y1, k);
    lemma_brush_center(at.0, at.1, radii[k] as int);
    assert(mark(x0, y0, x1, y1, radii, k).contains(at));
}

/// A stroke depends on its radii only where they are positive: two strokes
/// along one line are the same if, at every point, their radii are equal or
/// neither is positive.
pub proof fn lemma_stroke_same_marks(
    x0: int,
    y0: int,
    x1: int,
    y1: int,
    one: Seq<i32>,
    other: Seq<i32>,
)
    requires
        forall|k: int|
            0 <= k <= line_steps(x0, y0, x1, y1) ==> one[k] == other[k] || (one[k] <= 0 && other[k]
                <= 0),
    ensures
        stroke(x0, y0, x1, y1, one) == stroke(x0, y0, x1, y1, other),
{
    let n = line_steps(x0, y0, x1, y1);
    assert forall|k: int| 0 <= k <= n implies mark(x0, y0, x1, y1, one, k) == mark(
        x0,
        y0,
        x1,
        y1,
        other,
        k,
    ) by {}
    assert forall|p: Point|
        stroke(x0, y0, x1, y1, one).contains(p) <==> stroke(x0, y0, x1, y1, other).contains(p) by {
        if stroke(x0, y0, x1, y1, one).contains(p) {
            let k = choose|k: int| 0 <= k < n + 1 && #[trigger] mark(x0, y0, x1, y1, one, k).contains(p);
            assert(mark(x0, y0, x1, y1, other, k).contains(p));
        }
        if stroke(x0, y0, x1, y1, other).contains(p) {
            let k = choose|k: int|
                0 <= k < n + 1 && #[trigger] mark(x0, y0, x1, y1, other, k).contains(p);
            assert(mark(x0, y0, x1, y1, one, k).contains(p));
        }
    }
    assert(stroke(x0, y0, x1, y1, one) =~= stroke(x0, y0, x1, y1, other));
}

/// A brush whose diameter is `size` at every point of a line, and whose
/// radius is therefore half of `size` rounded down, draws what a brush of
/// the fixed diameter `size` draws.
pub proof fn lemma_stroke_even(x0: int, y0: int, x1: int, y1: int, radii: Seq<i32>, size: i32)
    requires
        forall|k: int| 0 <= k <= line_steps(x0, y0, x1, y1) ==> radii[k] == size as int / 2,
    ensures
        stroke(x0, y0, x1, y1, radii) == stroke(
            x0,
            y0,
            x1,
            y1,
            even_radii(line_steps(x0, y0, x1, y1), size),
        ),
{
    lemma_stroke_same_marks(
        x0,
        y0,
        x1,
        y1,
        radii,
        even_radii(line_steps(x0, y0, x1, y1), size),
    );
}

/// A brush without a positive radius draws the points of the line and
/// nothing else.
pub proof fn lemma_stroke_thin(x0: int, y0: int, x1: int, y1: int, radii: Seq<i32>, p: Point)
    requires
        forall|k: int| 0 <= k <= line_steps(x0, y0, x1, y1) ==> radii[k] <= 0,
    ensures
        stroke(x0, y0, x1, y1, radii).contains(p) <==> on_line(x0, y0, x1, y1, p),
{
    let n = line_steps(x0, y0, x1, y1);
    if stroke(x0, y0, x1, y1, radii).contains(p) {
        let k = choose|k: int| 0 <= k < n + 1 && #[trigger] mark(x0, y0, x1, y1, radii, k).contains(p);
        assert(p == line_point(x0, y0, x1, y1, k));
    }
    if exists|k: int| 0 <= k <= n && p == #[trigger] line_point(x0, y0, x1, y1, k) {
        let k = choose|k: int| 0 <= k <= n && p == #[trigger] line_point(x0, y0, x1, y1, k);
        assert(mark(x0, y0, x1, y1, radii, k).contains(p));
    }
}

} // verus!
