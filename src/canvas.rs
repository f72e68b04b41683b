//! The canvas: a fixed-size RGB pixel buffer, addressed in logical
//! coordinates whose row 0 is the bottom of the image, and a drawing cursor.
use vstd::prelude::*;
use slint::{Image, Rgb8Pixel, SharedPixelBuffer};
use crate::buffer::{buffer_pixels, buffer_size, image_pixels, image_size, black, new_buffer, store_pixel, image_of};
use crate::raster::{
    line_plots, line_row, circle_covers, column_covers, in_span, lower_row, upper_row, edge_disc,
    first_column, end_column, half_root, half_root_of, line_row_at, lemma_mul_le, lemma_square_le,
    lemma_half_root_unique, lemma_div_bounds, lemma_degenerate_shapes_plot_nothing,
};

verus! {

/// Where the logical point `(x, y)` of a `w` by `h` canvas is stored: rows
/// are kept top-down, so the point sits in row `h - y - 1`, column `x`.
pub open spec fn pixel_index(w: int, h: int, x: int, y: int) -> int {
    (h - y - 1) * w + x
}

/// `(x, y)` lies on a `w` by `h` canvas.
pub open spec fn in_bounds(w: int, h: int, x: int, y: int) -> bool {
    0 <= x < w && 0 <= y < h
}

/// Each logical point of a canvas has its own place in the buffer.
proof fn lemma_index(w: int, h: int, x: int, y: int, px: int, py: int)
    requires
        in_bounds(w, h, x, y),
        in_bounds(w, h, px, py),
    ensures
        0 <= pixel_index(w, h, x, y) < w * h,
        (pixel_index(w, h, x, y) == pixel_index(w, h, px, py)) == (x == px && y == py),
{
    let a = h - y - 1;
    let b = h - py - 1;
    assert(0 <= a * w + x < w * h) by (nonlinear_arith)
        requires
            0 <= a < h,
            0 <= x < w,
    ;
    if a < b {
        assert(a * w + x < b * w + px) by (nonlinear_arith)
            requires
                0 <= a < b,
                0 <= x < w,
                0 <= px,
        ;
    } else if b < a {
        assert(b * w + px < a * w + x) by (nonlinear_arith)
            requires
                0 <= b < a,
                0 <= px < w,
                0 <= x,
        ;
    }
}

/// `y + offset`, kept at most `u32::MAX`: no row of a canvas lies that high,
/// so a span that reaches beyond it covers the same rows of the canvas.
fn row_above(y: u32, offset: u64) -> (r: u32)
    ensures
        r as int == if y as int + offset as int > u32::MAX { u32::MAX as int } else { y as int + offset as int },
{
    if offset > (u32::MAX - y) as u64 {
        u32::MAX
    } else {
        y + offset as u32
    }
}

/// `y - offset`, kept at least 0: no row of a canvas lies lower, so a span
/// that reaches below it covers the same rows of the canvas.
fn row_below(y: u32, offset: u64) -> (r: u32)
    ensures
        r as int == if y as int >= offset as int { y as int - offset as int } else { 0 },
{
    if offset > y as u64 {
        0
    } else {
        y - offset as u32
    }
}

/// Whether a circle of radius `p / q` reaches a column edge that lies
/// `side / 2` columns from its centre, and how many rows above and below its
/// centre it crosses the edge, each rounded as `upper_row` and `lower_row` say.
fn edge_rows(four_p_squared: i128, p: u32, q: u32, side: i128) -> (r: (bool, u64, u64))
    requires
        0 < q,
        four_p_squared == 4 * (p as int) * (p as int),
        -0x2_0000_0001 <= side <= 0x2_0000_0001,
    ensures
        r.0 == (4 * p * p - (q * side) * (q * side) >= 0),
        r.1 as int == half_root(4 * p * p - (q * side) * (q * side), q as int),
        r.2 as int == half_root(4 * p * p - (q * side) * (q * side) - 1, q as int),
{
    let ghost pi = p as int;
    let ghost qi = q as int;
    let ghost d = 4 * pi * pi - (qi * side) * (qi * side);
    proof {
        let si = side as int;
        assert(-(0xffff_ffff * 0x2_0000_0001) <= qi * si <= 0xffff_ffff * 0x2_0000_0001) by (nonlinear_arith)
            requires
                0 < qi <= 0xffff_ffff,
                -0x2_0000_0001 <= si <= 0x2_0000_0001,
        ;
    }
    let a: i128 = q as i128 * side;
    if a > 2 * p as i128 || a < -2 * (p as i128) {
        proof {
            let ai = a as int;
            assert(4 * pi * pi < ai * ai) by (nonlinear_arith)
                requires
                    ai > 2 * pi || ai < -2 * pi,
                    pi >= 0,
            ;
            assert(qi * qi > 0) by (nonlinear_arith)
                requires
                    qi > 0,
            ;
            lemma_half_root_unique(d, qi, 0);
            lemma_half_root_unique(d - 1, qi, 0);
        }
        (false, 0, 0)
    } else {
        proof {
            lemma_square_le(a as int, 2 * pi);
            lemma_mul_le(pi, pi, u32::MAX as int, u32::MAX as int);
            assert((2 * pi) * (2 * pi) == 4 * (pi * pi)) by (nonlinear_arith);
            assert(4 * pi * pi == 4 * (pi * pi)) by (nonlinear_arith);
            assert(0 <= (a as int) * (a as int)) by (nonlinear_arith);
        }
        let disc: i128 = four_p_squared - a * a;
        (true, half_root_of(disc, p, q), half_root_of(disc - 1, p, q))
    }
}

/// The radius of a circle: `numerator / denominator` pixels, the denominator
/// not 0. A radius of 0 or below is allowed: such a circle plots nothing.
pub struct Radius {
    numerator: i64,
    denominator: u32,
}

impl Radius {
    /// The radius's numerator.
    pub closed spec fn numerator(&self) -> int {
        self.numerator as int
    }

    /// The radius's denominator.
    pub closed spec fn denominator(&self) -> int {
        self.denominator as int
    }

    /// The denominator is not 0, and the numerator fits in a `u32` or an `i32`.
    pub open spec fn wf(&self) -> bool {
        &&& self.denominator() > 0
        &&& i32::MIN <= self.numerator() <= u32::MAX
    }

    /// A radius of `numerator / denominator` pixels; `None` where the
    /// denominator is 0.
    pub fn new(numerator: i32, denominator: u32) -> (r: Option<Radius>)
        ensures
            r is Some <==> denominator > 0,
            r matches Some(v) ==> v.wf() && v.numerator() == numerator && v.denominator() == denominator,
    {
        if denominator == 0 {
            None
        } else {
            Some(Radius { numerator: numerator as i64, denominator })
        }
    }

    /// A radius of a whole number of pixels.
    pub fn whole(pixels: u32) -> (r: Radius)
        ensures
            r.wf(),
            r.numerator() == pixels,
            r.denominator() == 1,
    {
        Radius { numerator: pixels as i64, denominator: 1 }
    }
}

/// An RGB canvas of fixed size with a drawing cursor.
pub struct GraphicImage {
    data: SharedPixelBuffer<Rgb8Pixel>,
    width: u32,
    height: u32,
    current_x: u32,
    current_y: u32,
}

impl GraphicImage {
    /// The canvas's width in pixels.
    pub closed spec fn width(&self) -> int {
        self.width as int
    }

    /// The canvas's height in pixels.
    pub closed spec fn height(&self) -> int {
        self.height as int
    }

    /// The stored pixels, top row first, each row left to right.
    pub closed spec fn pixels(&self) -> Seq<Rgb8Pixel> {
        buffer_pixels(self.data)
    }

    /// The point where the last line or circle ended.
    pub closed spec fn cursor(&self) -> (u32, u32) {
        (self.current_x, self.current_y)
    }

    /// The width and height as the buffer records them.
    pub closed spec fn buffer_dimensions(&self) -> (u32, u32) {
        buffer_size(self.data)
    }

    /// The buffer has the canvas's size and holds one pixel for each point of
    /// the canvas.
    pub open spec fn wf(&self) -> bool {
        &&& 0 <= self.width()
        &&& 0 <= self.height()
        &&& self.buffer_dimensions() == (self.width() as u32, self.height() as u32)
        &&& self.width() <= u32::MAX
        &&& self.height() <= u32::MAX
        &&& self.pixels().len() == self.width() * self.height()
        &&& self.width() * self.height() <= usize::MAX
    }

    /// The color stored for the logical point `(x, y)`.
    pub open spec fn color_at(&self, x: int, y: int) -> Rgb8Pixel {
        self.pixels()[pixel_index(self.width(), self.height(), x, y)]
    }

    /// A `width` by `height` canvas, every pixel black, the cursor at `(0, 0)`.
    pub fn new(width: u32, height: u32) -> (r: GraphicImage)
        requires
            width as int * height as int <= usize::MAX as int,
        ensures
            r.wf(),
            r.width() == width as int,
            r.height() == height as int,
            r.cursor() == (0u32, 0u32),
            forall|i: int| 0 <= i < r.pixels().len() ==> r.pixels()[i] == black(),
    {
        GraphicImage { data: new_buffer(width, height), width, height, current_x: 0, current_y: 0 }
    }

    /// Stores `color` for the logical point `position`; a point off the
    /// canvas is ignored.
    pub fn set_pixel(&mut self, position: (u32, u32), color: Rgb8Pixel)
        requires
            old(self).wf(),
        ensures
            final(self).wf(),
            final(self).width() == old(self).width(),
            final(self).height() == old(self).height(),
            final(self).cursor() == old(self).cursor(),
            final(self).pixels() == if in_bounds(
                old(self).width(),
                old(self).height(),
                position.0 as int,
                position.1 as int,
            ) {
                old(self).pixels().update(
                    pixel_index(old(self).width(), old(self).height(), position.0 as int, position.1 as int),
                    color,
                )
            } else {
                old(self).pixels()
            },
            forall|x: int, y: int|
                in_bounds(old(self).width(), old(self).height(), x, y) ==> #[trigger] final(self).color_at(x, y)
                    == if x == position.0 && y == position.1 {
                    color
                } else {
                    old(self).color_at(x, y)
                },
    {
        let (x, y) = position;
        if x >= self.width || y >= self.height {
            return ;
        }
        let ghost w = self.width as int;
        let ghost h = self.height as int;
        proof {
            lemma_index(w, h, x as int, y as int, x as int, y as int);
        }
        let inverted_y = self.height - y - 1;
        let index = inverted_y as usize * self.width as usize + x as usize;
        let ghost before = *self;
        store_pixel(&mut self.data, index, color);
        proof {
            assert forall|px: int, py: int| in_bounds(w, h, px, py) implies #[trigger] self.color_at(px, py)
                == if px == x && py == y {
                color
            } else {
                before.color_at(px, py)
            } by {
                lemma_index(w, h, x as int, y as int, px, py);
                lemma_index(w, h, px, py, px, py);
            }
        }
    }

    /// Draws the line from `start` to `end` as `line_plots` says, then moves
    /// the cursor to `end`, also where the line plots nothing.
    pub fn line_from_to(&mut self, start: (u32, u32), end: (u32, u32), color: Rgb8Pixel)
        requires
            old(self).wf(),
        ensures
            final(self).wf(),
            final(self).width() == old(self).width(),
            final(self).height() == old(self).height(),
            final(self).cursor() == end,
            forall|x: int, y: int|
                in_bounds(old(self).width(), old(self).height(), x, y) ==> #[trigger] final(self).color_at(x, y)
                    == if line_plots(start, end, x, y) {
                    color
                } else {
                    old(self).color_at(x, y)
                },
    {
        let ghost before = *self;
        let ghost w = self.width as int;
        let ghost h = self.height as int;
        let (start_x, start_y) = start;
        let (end_x, end_y) = end;
        if start_x == end_x {
            let low = if start_y < end_y { start_y } else { end_y };
            let high = if start_y < end_y { end_y } else { start_y };
            let stop = if high < self.height { high } else { self.height };
            let mut y = low;
            while y < stop
                invariant
                    self.wf(),
                    self.width() == w,
                    self.height() == h,
                    stop <= h,
                    low <= y,
                    y <= stop || y == low,
                    forall|px: int, py: int|
                        in_bounds(w, h, px, py) ==> #[trigger] self.color_at(px, py) == if px == start_x
                            && low <= py < y {
                            color
                        } else {
                            before.color_at(px, py)
                        },
                decreases stop - y,
            {
                self.set_pixel((start_x, y), color);
                y = y + 1;
            }
            assert forall|px: int, py: int| in_bounds(w, h, px, py) implies (px == start_x && low <= py < y)
                == line_plots(start, end, px, py) by {}
        } else {
            let (x0, y0, x1, y1) = if start_x < end_x {
                (start_x, start_y, end_x, end_y)
            } else {
                (end_x, end_y, start_x, start_y)
            };
            let stop = if x1 < self.width { x1 } else { self.width };
            let mut x = x0;
            while x < stop
                invariant
                    self.wf(),
                    self.width() == w,
                    self.height() == h,
                    stop <= w,
                    stop <= x1,
                    x0 < x1,
                    x0 <= x,
                    x <= stop || x == x0,
                    forall|px: int, py: int|
                        in_bounds(w, h, px, py) ==> #[trigger] self.color_at(px, py) == if x0 <= px < x
                            && py == line_row(x0 as int, y0 as int, x1 as int, y1 as int, px) {
                            color
                        } else {
                            before.color_at(px, py)
                        },
                decreases stop - x,
            {
                let y = line_row_at(x0, y0, x1, y1, x);
                if y < self.height as u128 {
                    self.set_pixel((x, y as u32), color);
                }
                x = x + 1;
            }
            assert forall|px: int, py: int| in_bounds(w, h, px, py) implies (x0 <= px < x && py == line_row(
                x0 as int,
                y0 as int,
                x1 as int,
                y1 as int,
                px,
            )) == line_plots(start, end, px, py) by {}
        }
        let ghost drawn = *self;
        self.current_x = end_x;
        self.current_y = end_y;
        assert forall|px: int, py: int| in_bounds(w, h, px, py) implies #[trigger] self.color_at(px, py)
            == if line_plots(start, end, px, py) {
            color
        } else {
            before.color_at(px, py)
        } by {
            assert(self.color_at(px, py) == drawn.color_at(px, py));
        }
    }

    /// Draws the line from the cursor to `end`, as `line_from_to` does.
    pub fn line_to(&mut self, end: (u32, u32), color: Rgb8Pixel)
        requires
            old(self).wf(),
        ensures
            final(self).wf(),
            final(self).width() == old(self).width(),
            final(self).height() == old(self).height(),
            final(self).cursor() == end,
            forall|x: int, y: int|
                in_bounds(old(self).width(), old(self).height(), x, y) ==> #[trigger] final(self).color_at(x, y)
                    == if line_plots(old(self).cursor(), end, x, y) {
                    color
                } else {
                    old(self).color_at(x, y)
                },
    {
        self.line_from_to((self.current_x, self.current_y), end, color);
    }

    /// Draws a filled circle of radius `radius` around `position`, as
    /// `circle_covers` says, then moves the cursor to `position`.
    pub fn circle(&mut self, position: (u32, u32), radius: Radius, color: Rgb8Pixel)
        requires
            old(self).wf(),
            radius.wf(),
        ensures
            final(self).wf(),
            final(self).width() == old(self).width(),
            final(self).height() == old(self).height(),
            final(self).cursor() == position,
            forall|x: int, y: int|
                in_bounds(old(self).width(), old(self).height(), x, y) ==> #[trigger] final(self).color_at(x, y)
                    == if circle_covers(position, radius.numerator(), radius.denominator(), x, y) {
                    color
                } else {
                    old(self).color_at(x, y)
                },
    {
        let ghost before = *self;
        let ghost w = self.width as int;
        let ghost h = self.height as int;
        let q = radius.denominator;
        if radius.numerator <= 0 {
            proof {
                assert forall|px: int, py: int| in_bounds(w, h, px, py) implies !circle_covers(
                    position,
                    radius.numerator(),
                    radius.denominator(),
                    px,
                    py,
                ) by {
                    lemma_degenerate_shapes_plot_nothing(position, radius.numerator(), radius.denominator(), px, py);
                }
            }
            self.current_x = position.0;
            self.current_y = position.1;
            return ;
        }
        let p = radius.numerator as u32;
        let ghost pi = p as int;
        let ghost qi = q as int;
        let (x, y) = position;
        proof {
            lemma_mul_le(x as int, qi, u32::MAX as int, u32::MAX as int);
        }
        let scaled: u64 = x as u64 * q as u64;
        let first: u64 = if scaled >= p as u64 { (scaled - p as u64) / q as u64 } else { 0 };
        let last: u64 = x as u64 + (2 * p as u64 + q as u64) / (2 * q as u64);
        let stop: u64 = if last < self.width as u64 { last } else { self.width as u64 };
        proof {
            lemma_mul_le(pi, pi, u32::MAX as int, u32::MAX as int);
            assert(4 * pi * pi == 4 * (pi * pi)) by (nonlinear_arith);
        }
        proof {
            let n = x as int * qi - pi;
            lemma_div_bounds(n, qi);
            if n < 0 {
                let z = n / qi;
                assert(z < 0) by (nonlinear_arith)
                    requires
                        qi > 0,
                        qi * z <= n,
                        n < 0,
                ;
            }
        }
        let p_wide = p as i128;
        let four_p_squared: i128 = 4 * (p_wide * p_wide);
        let mut i: u64 = first;
        while i < stop
            invariant
                self.wf(),
                self.width() == w,
                self.height() == h,
                stop <= w,
                stop as int <= end_column(x as int, pi, qi),
                first as int >= first_column(x as int, pi, qi),
                first == 0 || first as int == first_column(x as int, pi, qi),
                first <= i,
                i <= stop || i == first,
                four_p_squared == 4 * pi * pi,
                pi == radius.numerator(),
                qi == radius.denominator(),
                pi == p,
                qi == q,
                0 < q,
                x == position.0,
                y == position.1,
                forall|px: int, py: int|
                    in_bounds(w, h, px, py) ==> #[trigger] self.color_at(px, py) == if first <= px < i
                        && column_covers(position, pi, qi, px, py) {
                        color
                    } else {
                        before.color_at(px, py)
                    },
            decreases stop - i,
        {
            let column = i as u32;
            let offset: i128 = 2 * (i as i128 - x as i128);
            let (reach_left, rise_left, fall_left) = edge_rows(four_p_squared, p, q, offset - 1);
            let (reach_right, rise_right, fall_right) = edge_rows(four_p_squared, p, q, offset + 1);
            if reach_left && reach_right {
                let top_left = row_above(y, rise_left);
                let top_right = row_above(y, rise_right);
                let bottom_left = row_below(y, fall_left);
                let bottom_right = row_below(y, fall_right);
                let ghost ul = upper_row(y as int, edge_disc(x as int, pi, qi, i as int, -1), qi);
                let ghost ur = upper_row(y as int, edge_disc(x as int, pi, qi, i as int, 1), qi);
                let ghost ll = lower_row(y as int, edge_disc(x as int, pi, qi, i as int, -1), qi);
                let ghost lr = lower_row(y as int, edge_disc(x as int, pi, qi, i as int, 1), qi);
                let ghost mid = *self;
                self.line_from_to((column, top_left), (column, top_right), color);
                let ghost mid2 = *self;
                self.line_from_to((column, bottom_left), (column, bottom_right), color);
                proof {
                    assert forall|px: int, py: int| in_bounds(w, h, px, py) implies #[trigger] self.color_at(px, py)
                        == if first <= px < i + 1 && column_covers(position, pi, qi, px, py) {
                        color
                    } else {
                        before.color_at(px, py)
                    } by {
                        assert(self.color_at(px, py) == if line_plots(
                            (column, bottom_left),
                            (column, bottom_right),
                            px,
                            py,
                        ) {
                            color
                        } else {
                            mid2.color_at(px, py)
                        });
                        assert(mid2.color_at(px, py) == if line_plots((column, top_left), (column, top_right), px, py) {
                            color
                        } else {
                            mid.color_at(px, py)
                        });
                        if px == i {
                            assert(mid.color_at(px, py) == before.color_at(px, py));
                            assert(line_plots((column, top_left), (column, top_right), px, py) == in_span(ul, ur, py));
                            assert(line_plots((column, bottom_left), (column, bottom_right), px, py) == in_span(
                                ll,
                                lr,
                                py,
                            ));
                            assert(column_covers(position, pi, qi, px, py) == (in_span(ul, ur, py) || in_span(
                                ll,
                                lr,
                                py,
                            )));
                        } else {
                            assert(!line_plots((column, top_left), (column, top_right), px, py));
                            assert(!line_plots((column, bottom_left), (column, bottom_right), px, py));
                        }
                    }
                }
            } else {
                proof {
                    assert forall|px: int, py: int| in_bounds(w, h, px, py) implies #[trigger] self.color_at(px, py)
                        == if first <= px < i + 1 && column_covers(position, pi, qi, px, py) {
                        color
                    } else {
                        before.color_at(px, py)
                    } by {
                        if px == i {
                            assert(!column_covers(position, pi, qi, px, py));
                        }
                    }
                }
            }
            i = i + 1;
        }
        let ghost drawn = *self;
        self.current_x = x;
        self.current_y = y;
        assert forall|px: int, py: int| in_bounds(w, h, px, py) implies #[trigger] self.color_at(px, py)
            == if circle_covers(position, pi, qi, px, py) {
            color
        } else {
            before.color_at(px, py)
        } by {
            assert(self.color_at(px, py) == drawn.color_at(px, py));
            assert((first <= px < i && column_covers(position, pi, qi, px, py)) == circle_covers(
                position,
                pi,
                qi,
                px,
                py,
            ));
        }
    }

    /// A copy of the canvas's pixels as an image of the canvas's size, top
    /// row first; later drawing on the canvas does not reach it.
    pub fn to_image(&self) -> (r: Image)
        requires
            self.wf(),
        ensures
            image_size(r).0 as int == self.width(),
            image_size(r).1 as int == self.height(),
            image_pixels(r) == self.pixels(),
    {
        image_of(&self.data)
    }
}

/// Two snapshots of one state of a canvas have the same size and hold the
/// same pixels.
pub proof fn lemma_snapshots_agree(canvas: GraphicImage, first: Image, second: Image)
    requires
        image_size(first).0 as int == canvas.width(),
        image_size(first).1 as int == canvas.height(),
        image_pixels(first) == canvas.pixels(),
        image_size(second).0 as int == canvas.width(),
        image_size(second).1 as int == canvas.height(),
        image_pixels(second) == canvas.pixels(),
    ensures
        image_size(first) == image_size(second),
        image_pixels(first) == image_pixels(second),
{
}

/// Two canvases of one size that show the same color at every point hold
/// the same pixels.
pub proof fn lemma_same_colors_same_pixels(a: GraphicImage, b: GraphicImage)
    requires
        a.wf(),
        b.wf(),
        a.width() == b.width(),
        a.height() == b.height(),
        forall|x: int, y: int| in_bounds(a.width(), a.height(), x, y) ==> #[trigger] a.color_at(x, y) == b.color_at(x, y),
    ensures
        a.pixels() == b.pixels(),
{
    let w = a.width();
    let h = a.height();
    assert forall|i: int| 0 <= i < a.pixels().len() implies a.pixels()[i] == b.pixels()[i] by {
        assert(w > 0) by (nonlinear_arith)
            requires
                0 <= i < w * h,
                0 <= h,
        ;
        lemma_div_bounds(i, w);
        let r = i / w;
        let x = i - w * r;
        assert(r < h) by (nonlinear_arith)
            requires
                w * r <= i < w * h,
                0 < w,
        ;
        assert(0 <= r) by (nonlinear_arith)
            requires
                w * r > i - w,
                0 <= i,
                0 < w,
        ;
        let y = h - 1 - r;
        assert(pixel_index(w, h, x, y) == i) by (nonlinear_arith)
            requires
                x == i - w * r,
                y == h - 1 - r,
        ;
        assert(a.color_at(x, y) == b.color_at(x, y));
    }
    assert(a.pixels() =~= b.pixels());
}

/// Drawing a line from a point to itself changes no pixel: a canvas that
/// holds what `line_from_to(p, p, color)` promises holds the pixels it held
/// before.
pub proof fn lemma_zero_length_line_changes_nothing(before: GraphicImage, after: GraphicImage, p: (u32, u32), color: Rgb8Pixel)
    requires
        before.wf(),
        after.wf(),
        after.width() == before.width(),
        after.height() == before.height(),
        forall|x: int, y: int|
            in_bounds(before.width(), before.height(), x, y) ==> #[trigger] after.color_at(x, y) == if line_plots(
                p,
                p,
                x,
                y,
            ) {
                color
            } else {
                before.color_at(x, y)
            },
    ensures
        after.pixels() == before.pixels(),
{
    assert forall|x: int, y: int| in_bounds(after.width(), after.height(), x, y) implies #[trigger] after.color_at(x, y)
        == before.color_at(x, y) by {
        lemma_degenerate_shapes_plot_nothing(p, 0, 1, x, y);
    }
    lemma_same_colors_same_pixels(after, before);
}

/// Drawing a circle of radius 0, or below 0, changes no pixel: a canvas that
/// holds what `circle(p, radius, color)` promises for such a radius holds the
/// pixels it held before.
pub proof fn lemma_zero_radius_circle_changes_nothing(
    before: GraphicImage,
    after: GraphicImage,
    p: (u32, u32),
    radius: Radius,
    color: Rgb8Pixel,
)
    requires
        before.wf(),
        after.wf(),
        radius.wf(),
        radius.numerator() <= 0,
        after.width() == before.width(),
        after.height() == before.height(),
        forall|x: int, y: int|
            in_bounds(before.width(), before.height(), x, y) ==> #[trigger] after.color_at(x, y) == if circle_covers(
                p,
                radius.numerator(),
                radius.denominator(),
                x,
                y,
            ) {
                color
            } else {
                before.color_at(x, y)
            },
    ensures
        after.pixels() == before.pixels(),
{
    assert forall|x: int, y: int| in_bounds(after.width(), after.height(), x, y) implies #[trigger] after.color_at(x, y)
        == before.color_at(x, y) by {
        lemma_degenerate_shapes_plot_nothing(p, radius.numerator(), radius.denominator(), x, y);
    }
    lemma_same_colors_same_pixels(after, before);
}

} // verus!
