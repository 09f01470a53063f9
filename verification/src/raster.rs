//! The mathematical model of a canvas: its dimensions and its bytes, and what
//! painting a set of points does to them.

use crate::color::{Rgb, Rgba, OPAQUE};
use vstd::arithmetic::div_mod::lemma_fundamental_div_mod_converse;
use vstd::prelude::*;

verus! {

/// A point of the integer plane, column first. Points may lie outside any
/// canvas.
pub type Point = (int, int);

/// A grid of `width` by `height` pixels stored row by row from the top left,
/// four bytes (red, green, blue, alpha) to the pixel.
pub struct Raster {
    pub width: nat,
    pub height: nat,
    pub bytes: Seq<u8>,
}

impl Raster {
    /// The buffer is tightly packed and every pixel is opaque.
    pub open spec fn wf(self) -> bool {
        &&& self.bytes.len() == self.width * self.height * 4
        &&& forall|i: int| 0 <= i < self.bytes.len() && i % 4 == 3 ==> self.bytes[i] == OPAQUE
    }

    /// Whether `(x, y)` names a pixel of the grid.
    pub open spec fn contains(self, x: int, y: int) -> bool {
        0 <= x < self.width && 0 <= y < self.height
    }

    /// Where the first byte of pixel `(x, y)` is stored.
    pub open spec fn offset(self, x: int, y: int) -> int {
        (y * self.width + x) * 4
    }

    /// The column of the pixel that byte `i` belongs to.
    pub open spec fn column_of(self, i: int) -> int {
        (i / 4) % (self.width as int)
    }

    /// The row of the pixel that byte `i` belongs to.
    pub open spec fn row_of(self, i: int) -> int {
        (i / 4) / (self.width as int)
    }

    /// The pixel that byte `i` belongs to.
    pub open spec fn point_of(self, i: int) -> Point {
        (self.column_of(i), self.row_of(i))
    }

    /// The stored bytes of pixel `(x, y)`.
    pub open spec fn pixel(self, x: int, y: int) -> Rgba {
        let at = self.offset(x, y);
        (self.bytes[at], self.bytes[at + 1], self.bytes[at + 2], self.bytes[at + 3])
    }

    /// A grid of the given size in which every byte is 255: opaque white.
    pub open spec fn blank(width: nat, height: nat) -> Raster {
        Raster { width, height, bytes: Seq::new(width * height * 4, |i: int| OPAQUE) }
    }

    /// The grid with every pixel set to `color`.
    pub open spec fn cleared(self, color: Rgb) -> Raster {
        Raster {
            width: self.width,
            height: self.height,
            bytes: Seq::new(self.bytes.len(), |i: int| color.channel(i % 4)),
        }
    }

    /// The grid after the pixels of `region` are set to `color`. Points of
    /// `region` that name no pixel of the grid have no effect.
    pub open spec fn painted(self, region: Set<Point>, color: Rgb) -> Raster {
        Raster {
            width: self.width,
            height: self.height,
            bytes: Seq::new(
                self.bytes.len(),
                |i: int|
                    if region.contains(self.point_of(i)) {
                        color.channel(i % 4)
                    } else {
                        self.bytes[i]
                    },
            ),
        }
    }
}

/// Byte `c` of pixel `(x, y)` lies inside the buffer, and belongs to that
/// pixel and to no other.
pub proof fn lemma_offset_point(v: Raster, x: int, y: int, c: int)
    requires
        v.contains(x, y),
        0 <= c < 4,
    ensures
        0 <= v.offset(x, y) + c < v.width * v.height * 4,
        v.point_of(v.offset(x, y) + c) == (x, y),
        (v.offset(x, y) + c) % 4 == c,
{
    let w = v.width as int;
    let h = v.height as int;
    let p = y * w + x;
    assert(0 <= p < w * h) by (nonlinear_arith)
        requires
            0 <= x < w,
            0 <= y < h,
            p == y * w + x,
    ;
    lemma_fundamental_div_mod_converse(p * 4 + c, 4, p, c);
    lemma_fundamental_div_mod_converse(p, w, y, x);
}

/// Every byte of the buffer belongs to exactly one pixel of the grid.
pub proof fn lemma_point_offset(v: Raster, i: int)
    requires
        0 <= i < v.width * v.height * 4,
    ensures
        v.contains(v.column_of(i), v.row_of(i)),
        v.offset(v.column_of(i), v.row_of(i)) + i % 4 == i,
{
    let w = v.width as int;
    let h = v.height as int;
    let p = i / 4;
    assert(w > 0) by (nonlinear_arith)
        requires
            0 <= i < w * h * 4,
            0 <= w,
    ;
    assert(0 <= p < w * h);
    let x = p % w;
    let y = p / w;
    assert(p == y * w + x && 0 <= x < w) by (nonlinear_arith)
        requires
            w > 0,
            x == p % w,
            y == p / w,
    ;
    assert(0 <= y < h) by (nonlinear_arith)
        requires
            0 <= p < w * h,
            p == y * w + x,
            0 <= x < w,
    ;
}

/// What painting does to each pixel of the grid: a pixel of the region takes
/// the color, every other pixel keeps its bytes.
pub proof fn lemma_painted_pixel(v: Raster, region: Set<Point>, color: Rgb, x: int, y: int)
    requires
        v.wf(),
        v.contains(x, y),
    ensures
        v.painted(region, color).pixel(x, y) == if region.contains((x, y)) {
            color.rgba()
        } else {
            v.pixel(x, y)
        },
{
    lemma_offset_point(v, x, y, 0);
    lemma_offset_point(v, x, y, 1);
    lemma_offset_point(v, x, y, 2);
    lemma_offset_point(v, x, y, 3);
}

/// Painting a region that holds no pixel of the grid changes no byte.
pub proof fn lemma_painted_outside(v: Raster, region: Set<Point>, color: Rgb)
    requires
        v.wf(),
        forall|x: int, y: int| region.contains((x, y)) ==> !v.contains(x, y),
    ensures
        v.painted(region, color) == v,
{
    assert forall|i: int| 0 <= i < v.bytes.len() implies !region.contains(v.point_of(i)) by {
        lemma_point_offset(v, i);
    }
    assert(v.painted(region, color).bytes =~= v.bytes);
}

/// Painting one region and then another with the same color paints their
/// union.
pub proof fn lemma_painted_union(v: Raster, a: Set<Point>, b: Set<Point>, color: Rgb)
    ensures
        v.painted(a, color).painted(b, color) == v.painted(a.union(b), color),
{
    assert(v.painted(a, color).painted(b, color).bytes =~= v.painted(a.union(b), color).bytes);
}

/// Clearing gives every pixel the color, whatever the grid held before, so a
/// second clearing with the same color changes nothing.
pub proof fn lemma_cleared(v: Raster, color: Rgb)
    requires
        v.wf(),
    ensures
        v.cleared(color).wf(),
        forall|x: int, y: int| v.contains(x, y) ==> v.cleared(color).pixel(x, y) == color.rgba(),
        v.cleared(color).cleared(color) == v.cleared(color),
        v.cleared(color) == v.painted(Set::full(), color),
{
    let c = v.cleared(color);
    assert forall|x: int, y: int| v.contains(x, y) implies c.pixel(x, y) == color.rgba() by {
        lemma_offset_point(v, x, y, 0);
        lemma_offset_point(v, x, y, 1);
        lemma_offset_point(v, x, y, 2);
        lemma_offset_point(v, x, y, 3);
    }
    assert(c.cleared(color).bytes =~= c.bytes);
    assert(c.bytes =~= v.painted(Set::full(), color).bytes);
}

} // verus!
