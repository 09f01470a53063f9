//! The canvas: an owned pixel buffer and the operations that draw on it.

use crate::color::{Rgb, OPAQUE};
use crate::line::{
    lemma_line_ends, lemma_line_not_done, lemma_line_within, lemma_walk_step, line_point,
    line_steps, on_line, span, walk_error,
};
use crate::raster::{
    lemma_cleared, lemma_offset_point, lemma_painted_outside, lemma_painted_pixel,
    lemma_painted_union, lemma_point_offset, Point, Raster,
};
use crate::shape::{brush, disc, disc_before, dot, lemma_disc_in_square};
use crate::stroke::{
    even_radii, lemma_stroke_covers_line, lemma_stroke_grow, lemma_stroke_none,
    lemma_stroke_thin, stroke, stroke_upto,
};
use vstd::prelude::*;

verus! {

/// Whether the buffer of a canvas of this size can be allocated: its length
/// in bytes may not exceed `isize::MAX`.
pub open spec fn fits_in_memory(width: u32, height: u32) -> bool {
    width * height * 4 <= isize::MAX
}

/// The reason a canvas could not be made: its buffer would be larger than an
/// allocation can be.
#[derive(Debug)]
pub struct CapacityError {
    pub width: u32,
    pub height: u32,
}

/// A drawing surface of fixed size. Every pixel is opaque; a fresh canvas is
/// white.
pub struct PaintCanvas {
    width: u32,
    height: u32,
    pixels: Vec<u8>,
}

impl View for PaintCanvas {
    type V = Raster;

    closed spec fn view(&self) -> Raster {
        Raster { width: self.width as nat, height: self.height as nat, bytes: self.pixels@ }
    }
}

impl PaintCanvas {
    #[verifier::type_invariant]
    spec fn well_formed(&self) -> bool {
        self@.wf()
    }

    /// Makes a white canvas, or reports that one of this size cannot be
    /// allocated.
    pub fn try_new(width: u32, height: u32) -> (made: Result<PaintCanvas, CapacityError>)
        ensures
            match made {
                Ok(canvas) => fits_in_memory(width, height) && canvas@ == Raster::blank(
                    width as nat,
                    height as nat,
                ) && canvas@.wf(),
                Err(e) => !fits_in_memory(width, height) && e.width == width && e.height == height,
            },
    {
        assert(width * height <= 0xffff_ffff * 0xffff_ffff) by (nonlinear_arith)
            requires
                0 <= width <= 0xffff_ffff,
                0 <= height <= 0xffff_ffff,
        ;
        let pixel_count: u64 = (width as u64) * (height as u64);
        if pixel_count > (isize::MAX as u64) / 4 {
            return Err(CapacityError { width, height });
        }
        Ok(PaintCanvas::new(width, height))
    }

    /// Makes a white canvas.
    pub fn new(width: u32, height: u32) -> (canvas: PaintCanvas)
        requires
            fits_in_memory(width, height),
        ensures
            canvas@ == Raster::blank(width as nat, height as nat),
            canvas@.wf(),
    {
        assert(width * height >= 0) by (nonlinear_arith)
            requires
                width >= 0,
                height >= 0,
        ;
        let size: usize = (width as usize) * (height as usize) * 4;
        let pixels = vec![OPAQUE; size];
        assert(pixels@ =~= Raster::blank(width as nat, height as nat).bytes);
        PaintCanvas { width, height, pixels }
    }

    /// The buffer as it is stored: row by row from the top left, four bytes
    /// to the pixel, each pixel opaque.
    pub fn get_pixels(&self) -> (bytes: &[u8])
        ensures
            bytes@ == self@.bytes,
            self@.wf(),
    {
        proof {
            use_type_invariant(self);
        }
        self.pixels.as_slice()
    }

    /// Sets every pixel to the given color.
    pub fn clear(&mut self, r: u8, g: u8, b: u8)
        ensures
            final(self)@ == old(self)@.cleared(Rgb { r, g, b }),
            final(self)@.wf(),
            forall|x: int, y: int|
                old(self)@.contains(x, y) ==> #[trigger] final(self)@.pixel(x, y) == (r, g, b, OPAQUE),
    {
        proof {
            use_type_invariant(&*self);
            lemma_cleared(self@, Rgb { r, g, b });
        }
        let ghost color = Rgb { r, g, b };
        let len = self.pixels.len();
        let mut at: usize = 0;
        while at < len
            invariant
                self.well_formed(),
                color == (Rgb { r, g, b }),
                self@.width == old(self)@.width,
                self@.height == old(self)@.height,
                len == self@.bytes.len(),
                len % 4 == 0,
                at % 4 == 0,
                at <= len,
                forall|i: int| 0 <= i < at ==> self@.bytes[i] == color.channel(i % 4),
            decreases len - at,
        {
            store(&mut self.pixels, at, r);
            store(&mut self.pixels, at + 1, g);
            store(&mut self.pixels, at + 2, b);
            store(&mut self.pixels, at + 3, OPAQUE);
            at += 4;
        }
        assert(self@.bytes =~= old(self)@.cleared(color).bytes);
    }

    /// Sets the pixel at `(x, y)` to the given color. A point outside the
    /// canvas is ignored.
    pub fn draw_point(&mut self, x: i32, y: i32, r: u8, g: u8, b: u8)
        ensures
            final(self)@ == old(self)@.painted(dot(x as int, y as int), Rgb { r, g, b }),
            final(self)@.wf(),
            old(self)@.contains(x as int, y as int) ==> final(self)@.pixel(x as int, y as int) == (
                r,
                g,
                b,
                OPAQUE,
            ),
            forall|u: int, v: int|
                old(self)@.contains(u, v) && (u, v) != (x as int, y as int)
                    ==> #[trigger] final(self)@.pixel(u, v) == old(self)@.pixel(u, v),
            !old(self)@.contains(x as int, y as int) ==> final(self)@ == old(self)@,
    {
        let ghost color = Rgb { r, g, b };
        let ghost point = dot(x as int, y as int);
        proof {
            use_type_invariant(&*self);
        }
        self.plot(x as i64, y as i64, Rgb { r, g, b });
        proof {
            assert forall|u: int, v: int| old(self)@.contains(u, v) implies #[trigger] self@.pixel(
                u,
                v,
            ) == if point.contains((u, v)) {
                color.rgba()
            } else {
                old(self)@.pixel(u, v)
            } by {
                lemma_painted_pixel(old(self)@, point, color, u, v);
            }
            if !old(self)@.contains(x as int, y as int) {
                lemma_painted_outside(old(self)@, point, color);
            }
        }
    }

    /// Fills the disc of the given radius around `(center_x, center_y)` with
    /// the given color, as far as it lies on the canvas. A radius that is not
    /// positive draws nothing.
    pub fn draw_circle(&mut self, center_x: i32, center_y: i32, radius: i32, r: u8, g: u8, b: u8)
        ensures
            final(self)@ == old(self)@.painted(
                disc(center_x as int, center_y as int, radius as int),
                Rgb { r, g, b },
            ),
            final(self)@.wf(),
            forall|x: int, y: int|
                old(self)@.contains(x, y) ==> #[trigger] final(self)@.pixel(x, y) == if radius > 0
                    && (x - center_x) * (x - center_x) + (y - center_y) * (y - center_y) <= radius
                    * radius {
                    (r, g, b, OPAQUE)
                } else {
                    old(self)@.pixel(x, y)
                },
            radius <= 0 ==> final(self)@ == old(self)@,
    {
        let ghost color = Rgb { r, g, b };
        let ghost whole = disc(center_x as int, center_y as int, radius as int);
        proof {
            use_type_invariant(&*self);
        }
        self.fill_disc(center_x as i64, center_y as i64, radius, Rgb { r, g, b });
        proof {
            assert forall|x: int, y: int| old(self)@.contains(x, y) implies #[trigger] self@.pixel(
                x,
                y,
            ) == if whole.contains((x, y)) {
                color.rgba()
            } else {
                old(self)@.pixel(x, y)
            } by {
                lemma_painted_pixel(old(self)@, whole, color, x, y);
            }
            if radius <= 0 {
                lemma_painted_outside(old(self)@, whole, color);
            }
        }
    }

    /// Tests every point of the square around the centre, row by row, and
    /// plots those that lie in the disc.
    fn fill_disc(&mut self, cx: i64, cy: i64, radius: i32, color: Rgb)
        requires
            i32::MIN <= cx <= i32::MAX,
            i32::MIN <= cy <= i32::MAX,
        ensures
            final(self)@ == old(self)@.painted(disc(cx as int, cy as int, radius as int), color),
            final(self)@.wf(),
    {
        proof {
            use_type_invariant(&*self);
        }
        let ghost whole = disc(cx as int, cy as int, radius as int);
        if radius <= 0 {
            proof {
                lemma_painted_outside(self@, whole, color);
            }
            return ;
        }
        let reach: i64 = radius as i64;
        assert(reach * reach <= 0x3fff_ffff_0000_0001) by (nonlinear_arith)
            requires
                0 < reach <= 0x7fff_ffff,
        ;
        let limit: i64 = reach * reach;
        let mut dy: i64 = -reach;
        proof {
            assert(disc_before(cx as int, cy as int, radius as int, dy as int, dy as int)
                =~= Set::<Point>::empty()) by {
                assert forall|p: Point|
                    !disc_before(cx as int, cy as int, radius as int, dy as int, dy as int).contains(
                        p,
                    ) by {
                    if whole.contains(p) {
                        lemma_disc_in_square(cx as int, cy as int, radius as int, p);
                    }
                }
            }
            lemma_painted_outside(self@, Set::<Point>::empty(), color);
        }
        while dy <= reach
            invariant
                self.well_formed(),
                0 < radius,
                reach == radius,
                limit == reach * reach,
                limit <= 0x3fff_ffff_0000_0001,
                i32::MIN <= cx <= i32::MAX,
                i32::MIN <= cy <= i32::MAX,
                -reach <= dy <= reach + 1,
                self@ == old(self)@.painted(
                    disc_before(cx as int, cy as int, radius as int, dy as int, -reach as int),
                    color,
                ),
            decreases reach + 1 - dy,
        {
            let mut dx: i64 = -reach;
            while dx <= reach
                invariant
                    self.well_formed(),
                    0 < radius,
                    reach == radius,
                    limit == reach * reach,
                    limit <= 0x3fff_ffff_0000_0001,
                    i32::MIN <= cx <= i32::MAX,
                    i32::MIN <= cy <= i32::MAX,
                    -reach <= dy <= reach,
                    -reach <= dx <= reach + 1,
                    self@ == old(self)@.painted(
                        disc_before(cx as int, cy as int, radius as int, dy as int, dx as int),
                        color,
                    ),
                decreases reach + 1 - dx,
            {
                assert(0 <= dx * dx <= reach * reach && 0 <= dy * dy <= reach * reach)
                    by (nonlinear_arith)
                    requires
                        -reach <= dx <= reach,
                        -reach <= dy <= reach,
                ;
                let ghost scanned = disc_before(
                    cx as int,
                    cy as int,
                    radius as int,
                    dy as int,
                    dx as int,
                );
                let ghost next = disc_before(
                    cx as int,
                    cy as int,
                    radius as int,
                    dy as int,
                    dx + 1,
                );
                if dx * dx + dy * dy <= limit {
                    self.plot(cx + dx, cy + dy, color);
                    proof {
                        let point = dot(cx + dx, cy + dy);
                        lemma_painted_union(old(self)@, scanned, point, color);
                        assert(scanned.union(point) =~= next);
                    }
                } else {
                    assert(scanned =~= next);
                }
                dx += 1;
            }
            proof {
                let full_row = disc_before(cx as int, cy as int, radius as int, dy as int, dx as int);
                let next_row = disc_before(
                    cx as int,
                    cy as int,
                    radius as int,
                    dy + 1,
                    -reach as int,
                );
                assert forall|p: Point| full_row.contains(p) <==> next_row.contains(p) by {
                    if disc(cx as int, cy as int, radius as int).contains(p) {
                        lemma_disc_in_square(cx as int, cy as int, radius as int, p);
                    }
                }
                assert(full_row =~= next_row);
            }
            dy += 1;
        }
        proof {
            let all_rows = disc_before(cx as int, cy as int, radius as int, dy as int, -reach as int);
            assert forall|p: Point| all_rows.contains(p) <==> whole.contains(p) by {
                if whole.contains(p) {
                    lemma_disc_in_square(cx as int, cy as int, radius as int, p);
                }
            }
            assert(all_rows =~= whole);
        }
    }

    /// Draws the line from `(x0, y0)` to `(x1, y1)` with a brush of the given
    /// diameter. A diameter above one leaves a disc of half that diameter,
    /// rounded down, as radius at every point of the line; any other leaves
    /// the point itself.
    pub fn draw_line(
        &mut self,
        x0: i32,
        y0: i32,
        x1: i32,
        y1: i32,
        r: u8,
        g: u8,
        b: u8,
        brush_size: i32,
    )
        ensures
            final(self)@ == old(self)@.painted(
                stroke(
                    x0 as int,
                    y0 as int,
                    x1 as int,
                    y1 as int,
                    even_radii(line_steps(x0 as int, y0 as int, x1 as int, y1 as int), brush_size),
                ),
                Rgb { r, g, b },
            ),
            final(self)@.wf(),
            old(self)@.contains(x0 as int, y0 as int) ==> final(self)@.pixel(x0 as int, y0 as int)
                == (r, g, b, OPAQUE),
            old(self)@.contains(x1 as int, y1 as int) ==> final(self)@.pixel(x1 as int, y1 as int)
                == (r, g, b, OPAQUE),
            brush_size <= 1 ==> forall|x: int, y: int|
                old(self)@.contains(x, y) ==> #[trigger] final(self)@.pixel(x, y) == if on_line(
                    x0 as int,
                    y0 as int,
                    x1 as int,
                    y1 as int,
                    (x, y),
                ) {
                    (r, g, b, OPAQUE)
                } else {
                    old(self)@.pixel(x, y)
                },
    {
        proof {
            use_type_invariant(&*self);
        }
        let radius: i32 = if brush_size > 1 {
            brush_size / 2
        } else {
            0
        };
        let even = move |step: u32| -> (out: i32)
            ensures
                out == radius,
            { radius };
        self.draw_line_gradient_size(x0, y0, x1, y1, r, g, b, even);
        proof {
            let steps = line_steps(x0 as int, y0 as int, x1 as int, y1 as int);
            let radii = choose|radii: Seq<i32>|
                {
                    &&& radii.len() == steps + 1
                    &&& forall|k: int|
                        0 <= k < radii.len() ==> call_ensures(even, (k as u32,), #[trigger] radii[k])
                    &&& self@ == old(self)@.painted(
                        stroke(x0 as int, y0 as int, x1 as int, y1 as int, radii),
                        Rgb { r, g, b },
                    )
                };
            assert(radii =~= even_radii(steps, brush_size));
            let drawn = stroke(x0 as int, y0 as int, x1 as int, y1 as int, radii);
            if brush_size <= 1 {
                assert forall|x: int, y: int| old(self)@.contains(x, y) implies #[trigger] self@.pixel(
                    x,
                    y,
                ) == if on_line(x0 as int, y0 as int, x1 as int, y1 as int, (x, y)) {
                    (r, g, b, OPAQUE)
                } else {
                    old(self)@.pixel(x, y)
                } by {
                    lemma_stroke_thin(x0 as int, y0 as int, x1 as int, y1 as int, radii, (x, y));
                    lemma_painted_pixel(old(self)@, drawn, Rgb { r, g, b }, x, y);
                }
            }
        }
    }

    /// Draws the line from `(x0, y0)` to `(x1, y1)` with a brush whose size
    /// changes along the line: at point number `k` of the line, counted from
    /// zero at `(x0, y0)`, the brush has the radius `radius_at(k)`. A radius
    /// that is not positive leaves the point itself.
    pub fn draw_line_gradient_size<F: Fn(u32) -> i32>(
        &mut self,
        x0: i32,
        y0: i32,
        x1: i32,
        y1: i32,
        r: u8,
        g: u8,
        b: u8,
        radius_at: F,
    )
        requires
            forall|k: u32|
                k <= line_steps(x0 as int, y0 as int, x1 as int, y1 as int) ==> call_requires(
                    radius_at,
                    (k,),
                ),
        ensures
            final(self)@.wf(),
            old(self)@.contains(x0 as int, y0 as int) ==> final(self)@.pixel(x0 as int, y0 as int)
                == (r, g, b, OPAQUE),
            old(self)@.contains(x1 as int, y1 as int) ==> final(self)@.pixel(x1 as int, y1 as int)
                == (r, g, b, OPAQUE),
            exists|radii: Seq<i32>|
                {
                    &&& radii.len() == line_steps(x0 as int, y0 as int, x1 as int, y1 as int) + 1
                    &&& forall|k: int|
                        0 <= k < radii.len() ==> call_ensures(
                            radius_at,
                            (k as u32,),
                            #[trigger] radii[k],
                        )
                    &&& final(self)@ == old(self)@.painted(
                        stroke(x0 as int, y0 as int, x1 as int, y1 as int, radii),
                        Rgb { r, g, b },
                    )
                },
    {
        proof {
            use_type_invariant(&*self);
        }
        let color = Rgb { r, g, b };
        let end_x: i64 = x1 as i64;
        let end_y: i64 = y1 as i64;
        let dx: i64 = if x0 <= x1 {
            x1 as i64 - x0 as i64
        } else {
            x0 as i64 - x1 as i64
        };
        let dy: i64 = if y0 <= y1 {
            y0 as i64 - y1 as i64
        } else {
            y1 as i64 - y0 as i64
        };
        let sx: i64 = if x0 < x1 {
            1
        } else {
            -1
        };
        let sy: i64 = if y0 < y1 {
            1
        } else {
            -1
        };
        let mut err: i64 = dx + dy;
        let mut x: i64 = x0 as i64;
        let mut y: i64 = y0 as i64;
        let mut step: u32 = 0;
        let ghost steps = line_steps(x0 as int, y0 as int, x1 as int, y1 as int);
        let ghost mut radii: Seq<i32> = Seq::empty();
        proof {
            lemma_line_ends(x0 as int, y0 as int, x1 as int, y1 as int);
            lemma_stroke_none(x0 as int, y0 as int, x1 as int, y1 as int, radii);
            lemma_painted_outside(self@, Set::<Point>::empty(), color);
            assert(walk_error(dx as int, -dy as int, 0) == dx + dy) by {
                assert(dx * (1 + 0) == dx) by (nonlinear_arith);
                assert((-dy) * (1 + 0) == -dy) by (nonlinear_arith);
            }
        }
        loop
            invariant_except_break
                radii.len() == step,
                step <= steps,
                (x as int, y as int) == line_point(
                    x0 as int,
                    y0 as int,
                    x1 as int,
                    y1 as int,
                    step as int,
                ),
                err == walk_error(dx as int, -dy as int, step as int),
                self@ == old(self)@.painted(
                    stroke_upto(x0 as int, y0 as int, x1 as int, y1 as int, radii, step as int),
                    color,
                ),
            invariant
                self.well_formed(),
                color == (Rgb { r, g, b }),
                steps == line_steps(x0 as int, y0 as int, x1 as int, y1 as int),
                dx == span(x0 as int, x1 as int),
                dy == -span(y0 as int, y1 as int),
                sx == (if x0 < x1 {
                    1int
                } else {
                    -1int
                }),
                sy == (if y0 < y1 {
                    1int
                } else {
                    -1int
                }),
                end_x == x1,
                end_y == y1,
                forall|k: u32| k <= steps ==> call_requires(radius_at, (k,)),
                forall|k: int|
                    0 <= k < radii.len() ==> call_ensures(radius_at, (k as u32,), #[trigger] radii[k]),
            ensures
                radii.len() == steps + 1,
                self@ == old(self)@.painted(
                    stroke(x0 as int, y0 as int, x1 as int, y1 as int, radii),
                    color,
                ),
            decreases steps - step,
        {
            proof {
                lemma_line_within(x0 as int, y0 as int, x1 as int, y1 as int, step as int);
            }
            let radius = radius_at(step);
            self.stamp(x, y, radius, color);
            proof {
                let drawn = stroke_upto(
                    x0 as int,
                    y0 as int,
                    x1 as int,
                    y1 as int,
                    radii,
                    step as int,
                );
                lemma_stroke_grow(x0 as int, y0 as int, x1 as int, y1 as int, radii, radius);
                lemma_painted_union(
                    old(self)@,
                    drawn,
                    brush(x as int, y as int, radius as int),
                    color,
                );
                radii = radii.push(radius);
            }
            if x == end_x && y == end_y {
                proof {
                    if step < steps {
                        lemma_line_not_done(
                            x0 as int,
                            y0 as int,
                            x1 as int,
                            y1 as int,
                            step as int,
                        );
                    }
                }
                break ;
            }
            proof {
                if step == steps {
                    lemma_line_ends(x0 as int, y0 as int, x1 as int, y1 as int);
                }
                lemma_walk_step(dx as int, -dy as int, step as int);
            }
            let e2: i64 = 2 * err;
            if e2 >= dy {
                err += dy;
                x += sx;
            }
            if e2 <= dx {
                err += dx;
                y += sy;
            }
            step += 1;
        }
        proof {
            let drawn = stroke(x0 as int, y0 as int, x1 as int, y1 as int, radii);
            lemma_line_ends(x0 as int, y0 as int, x1 as int, y1 as int);
            lemma_stroke_covers_line(x0 as int, y0 as int, x1 as int, y1 as int, radii, 0);
            lemma_stroke_covers_line(x0 as int, y0 as int, x1 as int, y1 as int, radii, steps);
            if old(self)@.contains(x0 as int, y0 as int) {
                lemma_painted_pixel(old(self)@, drawn, color, x0 as int, y0 as int);
            }
            if old(self)@.contains(x1 as int, y1 as int) {
                lemma_painted_pixel(old(self)@, drawn, color, x1 as int, y1 as int);
            }
        }
    }

    /// Leaves the mark of a brush at `(x, y)`: a disc where the radius is
    /// positive, a single pixel otherwise.
    fn stamp(&mut self, x: i64, y: i64, radius: i32, color: Rgb)
        requires
            i32::MIN <= x <= i32::MAX,
            i32::MIN <= y <= i32::MAX,
        ensures
            final(self)@ == old(self)@.painted(brush(x as int, y as int, radius as int), color),
            final(self)@.wf(),
    {
        if radius > 0 {
            self.fill_disc(x, y, radius, color);
        } else {
            self.plot(x, y, color);
        }
    }

    /// Sets the pixel at `(x, y)`, if the canvas has one there.
    fn plot(&mut self, x: i64, y: i64, color: Rgb)
        ensures
            final(self)@ == old(self)@.painted(dot(x as int, y as int), color),
            final(self)@.wf(),
    {
        proof {
            use_type_invariant(&*self);
        }
        if x < 0 || y < 0 || x >= self.width as i64 || y >= self.height as i64 {
            proof {
                lemma_painted_outside(self@, dot(x as int, y as int), color);
            }
            return ;
        }
        let len = self.pixels.len();
        proof {
            lemma_offset_point(self@, x as int, y as int, 3);
            assert(y * self.width >= 0) by (nonlinear_arith)
                requires
                    y >= 0,
                    self.width >= 0,
            ;
        }
        let index: usize = ((y as usize) * (self.width as usize) + (x as usize)) * 4;
        // The coordinate test above already implies this one; it stays as a
        // second line of defence against a wrong offset.
        if index + 3 < len {
            store(&mut self.pixels, index, color.r);
            store(&mut self.pixels, index + 1, color.g);
            store(&mut self.pixels, index + 2, color.b);
            store(&mut self.pixels, index + 3, OPAQUE);
        }
        proof {
            let before = old(self)@;
            let after = before.painted(dot(x as int, y as int), color);
            assert forall|i: int| 0 <= i < before.bytes.len() implies self@.bytes[i]
                == after.bytes[i] by {
                lemma_point_offset(before, i);
                if index <= i < index + 4 {
                    lemma_offset_point(before, x as int, y as int, i - index);
                }
            }
            assert(self@.bytes =~= after.bytes);
        }
    }
}

/// Overwrites one byte of a buffer.
fn store(buffer: &mut Vec<u8>, at: usize, value: u8)
    requires
        at < old(buffer).len(),
    ensures
        final(buffer)@ == old(buffer)@.update(at as int, value),
    no_unwind
{
    buffer[at] = value;
}

} // verus!
