//! The geometry of the drawing primitives: which logical points a straight
//! line and a filled circle plot, stated over integers, and the exact integer
//! computations of the rows that they plot.
use vstd::prelude::*;

verus! {

/// The integer nearest to `num / den`, for `den > 0`; a half rounds up.
pub open spec fn nearest_ratio(num: int, den: int) -> int {
    (2 * num + den) / (2 * den)
}

/// The row at column `x` of the straight line through `(x0, y0)` and
/// `(x1, y1)`, where `x0 < x1`: `y0 + (y1 - y0) * (x - x0) / (x1 - x0)`,
/// rounded to the nearest integer, a half rounding up.
pub open spec fn line_row(x0: int, y0: int, x1: int, y1: int, x: int) -> int {
    nearest_ratio(y0 * (x1 - x) + y1 * (x - x0), x1 - x0)
}

/// `y` lies between `a` and `b`, the smaller one included and the larger one
/// left out.
pub open spec fn in_span(a: int, b: int, y: int) -> bool {
    if a <= b {
        a <= y < b
    } else {
        b <= y < a
    }
}

/// The logical points that a line from `start` to `end` plots.
///
/// A vertical line plots its column from the lower row up to the higher one,
/// which it leaves out. Any other line plots one point per column, from the
/// column further left up to the one further right, which it leaves out; the
/// point's row is the line's row at that column, rounded to the nearest.
pub open spec fn line_plots(start: (u32, u32), end: (u32, u32), x: int, y: int) -> bool {
    let sx = start.0 as int;
    let sy = start.1 as int;
    let ex = end.0 as int;
    let ey = end.1 as int;
    if sx == ex {
        x == sx && in_span(sy, ey, y)
    } else if sx < ex {
        sx <= x < ex && y == line_row(sx, sy, ex, ey, x)
    } else {
        ex <= x < sx && y == line_row(ex, ey, sx, sy, x)
    }
}

/// `n` is `sqrt(d) / (2 * q)` rounded to the nearest integer, a half rounding
/// up; `n` is 0 where `d < q * q`, negative `d` included.
pub open spec fn is_half_root(d: int, q: int, n: int) -> bool {
    &&& 0 <= n
    &&& (n == 0 || ((2 * n - 1) * q) * ((2 * n - 1) * q) <= d)
    &&& d < ((2 * n + 1) * q) * ((2 * n + 1) * q)
}

/// `sqrt(d) / (2 * q)` rounded to the nearest integer, a half rounding up;
/// 0 where `d < q * q`.
pub open spec fn half_root(d: int, q: int) -> int {
    choose|n: int| is_half_root(d, q, n)
}

/// For a circle of radius `p / q` centred on column `h`, and the edge
/// `e = i + side / 2` of column `i` (`side` is -1 for the left edge, 1 for the
/// right one): `4 * q * q * (r * r - (e - h) * (e - h))`. The circle meets the
/// edge `sqrt(edge_disc(..)) / (2 * q)` rows above and below its centre; an
/// edge that the circle does not reach gives a negative value.
pub open spec fn edge_disc(h: int, p: int, q: int, i: int, side: int) -> int {
    4 * p * p - (q * (2 * (i - h) + side)) * (q * (2 * (i - h) + side))
}

/// The upper crossing of a column edge that the circle reaches, rounded to
/// the nearest row, a half rounding up.
pub open spec fn upper_row(k: int, d: int, q: int) -> int {
    k + half_root(d, q)
}

/// The lower crossing of a column edge that the circle reaches, rounded to
/// the nearest row, a half rounding up.
pub open spec fn lower_row(k: int, d: int, q: int) -> int {
    k - half_root(d - 1, q)
}

/// The rows that a filled circle of radius `p / q` plots in column `i`: the
/// span between the upper crossings of the column's two edges and the span
/// between the lower ones. Where the circle does not reach one of the two
/// edges (its `edge_disc` is negative), the column has no crossing there and
/// plots no row at all.
pub open spec fn column_covers(center: (u32, u32), p: int, q: int, i: int, y: int) -> bool {
    let h = center.0 as int;
    let k = center.1 as int;
    let dl = edge_disc(h, p, q, i, -1);
    let dr = edge_disc(h, p, q, i, 1);
    &&& 0 <= dl
    &&& 0 <= dr
    &&& (in_span(upper_row(k, dl, q), upper_row(k, dr, q), y) || in_span(
        lower_row(k, dl, q),
        lower_row(k, dr, q),
        y,
    ))
}

/// The first column of a circle of radius `p / q` centred on column `h`:
/// `h - p / q` rounded down.
pub open spec fn first_column(h: int, p: int, q: int) -> int {
    (h * q - p) / q
}

/// The column after the last one of a circle of radius `p / q` centred on
/// column `h`: `h + p / q` rounded to the nearest, a half rounding up.
pub open spec fn end_column(h: int, p: int, q: int) -> int {
    h + nearest_ratio(p, q)
}

/// The logical points that a filled circle of radius `p / q` plots: the
/// columns from `first_column` up to `end_column`, which is left out, each as
/// `column_covers` says.
pub open spec fn circle_covers(center: (u32, u32), p: int, q: int, x: int, y: int) -> bool {
    let h = center.0 as int;
    first_column(h, p, q) <= x < end_column(h, p, q) && column_covers(center, p, q, x, y)
}

/// Products of non-negative integers grow with their factors.
pub proof fn lemma_mul_le(a: int, b: int, c: int, d: int)
    requires
        0 <= a <= c,
        0 <= b <= d,
    ensures
        a * b <= c * d,
{
    assert(a * b <= c * d) by (nonlinear_arith)
        requires
            0 <= a <= c,
            0 <= b <= d,
    ;
}

/// A square grows with the absolute value of what is squared.
pub proof fn lemma_square_le(a: int, b: int)
    requires
        -b <= a <= b,
    ensures
        a * a <= b * b,
{
    assert(a * a <= b * b) by (nonlinear_arith)
        requires
            -b <= a <= b,
    ;
}

/// `n / q` rounds down: `q * (n / q)` is at most `n` and above `n - q`.
pub proof fn lemma_div_bounds(n: int, q: int)
    requires
        0 < q,
    ensures
        q * (n / q) <= n < q * (n / q) + q,
{
    vstd::arithmetic::div_mod::lemma_fundamental_div_mod(n, q);
    vstd::arithmetic::div_mod::lemma_mod_bound(n, q);
}

/// There is one rounded half root of each integer.
pub proof fn lemma_half_root_unique(d: int, q: int, n: int)
    requires
        0 < q,
        is_half_root(d, q, n),
    ensures
        half_root(d, q) == n,
{
    let m = half_root(d, q);
    assert(is_half_root(d, q, m));
    if m < n {
        lemma_mul_le(2 * m + 1, q, 2 * n - 1, q);
        lemma_square_le((2 * m + 1) * q, (2 * n - 1) * q);
    } else if n < m {
        lemma_mul_le(2 * n + 1, q, 2 * m - 1, q);
        lemma_square_le((2 * n + 1) * q, (2 * m - 1) * q);
    }
}

/// Each integer below `((2 * m + 1) * q)^2` has a rounded half root of at
/// most `m`.
pub proof fn lemma_half_root_at_most(d: int, q: int, m: int)
    requires
        0 < q,
        0 <= m,
        d < ((2 * m + 1) * q) * ((2 * m + 1) * q),
    ensures
        is_half_root(d, q, half_root(d, q)),
        0 <= half_root(d, q) <= m,
    decreases m,
{
    if m == 0 || ((2 * m - 1) * q) * ((2 * m - 1) * q) <= d {
        lemma_half_root_unique(d, q, m);
    } else {
        assert(2 * m - 1 == 2 * (m - 1) + 1);
        lemma_half_root_at_most(d, q, m - 1);
    }
}

/// The rounded half root of a scaled crossing is at most about `p / q`:
/// `q * (2 * half_root(d, q) - 1) <= 2 * p`.
pub proof fn lemma_half_root_within(d: int, p: int, q: int)
    requires
        0 <= p,
        0 < q,
        d <= 4 * p * p,
    ensures
        is_half_root(d, q, half_root(d, q)),
        0 <= half_root(d, q),
        q * (2 * half_root(d, q) - 1) <= 2 * p,
{
    assert(4 * p * p < ((2 * p + 1) * q) * ((2 * p + 1) * q)) by (nonlinear_arith)
        requires
            0 <= p,
            0 < q,
    ;
    lemma_half_root_at_most(d, q, p);
    let n = half_root(d, q);
    if n > 0 {
        let a = (2 * n - 1) * q;
        assert(a <= 2 * p) by (nonlinear_arith)
            requires
                a * a <= 4 * p * p,
                0 <= p,
        ;
        assert(q * (2 * n - 1) == (2 * n - 1) * q) by (nonlinear_arith);
    } else {
        assert(q * (2 * n - 1) == -q) by (nonlinear_arith)
            requires
                n == 0,
        ;
    }
}

/// A filled circle of radius `p / q` plots nothing further than its radius
/// plus one pixel from its centre, across or up and down.
pub proof fn lemma_circle_within_radius(center: (u32, u32), p: int, q: int, x: int, y: int)
    requires
        0 <= p,
        0 < q,
        circle_covers(center, p, q, x, y),
    ensures
        -(p + q) <= q * (x - center.0) <= p + q,
        -(p + q) <= q * (y - center.1) <= p + q,
{
    let h = center.0 as int;
    let k = center.1 as int;
    let f = first_column(h, p, q);
    let m = nearest_ratio(p, q);
    lemma_div_bounds(h * q - p, q);
    lemma_div_bounds(2 * p + q, 2 * q);
    assert(-(p + q) <= q * (x - h)) by (nonlinear_arith)
        requires
            f <= x,
            q * f > h * q - p - q,
            0 < q,
    ;
    assert(q * (x - h) <= p + q) by (nonlinear_arith)
        requires
            x - h <= m - 1,
            2 * q * m <= 2 * p + q,
            0 < q,
            0 <= p,
    ;
    let dl = edge_disc(h, p, q, x, -1);
    let dr = edge_disc(h, p, q, x, 1);
    let sl = q * (2 * (x - h) - 1);
    let sr = q * (2 * (x - h) + 1);
    assert(0 <= sl * sl) by (nonlinear_arith);
    assert(0 <= sr * sr) by (nonlinear_arith);
    lemma_half_root_within(dl, p, q);
    lemma_half_root_within(dr, p, q);
    lemma_half_root_within(dl - 1, p, q);
    lemma_half_root_within(dr - 1, p, q);
    let ul = half_root(dl, q);
    let ur = half_root(dr, q);
    let ll = half_root(dl - 1, q);
    let lr = half_root(dr - 1, q);
    if in_span(k + ul, k + ur, y) {
        let n = if ul <= ur { ur } else { ul };
        assert(0 <= q * (y - k) <= p) by (nonlinear_arith)
            requires
                0 <= y - k <= n - 1,
                q * (2 * n - 1) <= 2 * p,
                0 < q,
        ;
    } else {
        let n = if ll <= lr { lr } else { ll };
        assert(in_span(k - ll, k - lr, y));
        assert(q * (k - y) == -(q * (y - k))) by (nonlinear_arith);
        assert(0 <= q * (k - y) <= p + q) by (nonlinear_arith)
            requires
                0 <= k - y <= n,
                q * (2 * n - 1) <= 2 * p,
                0 < q,
        ;
    }
}

/// A line from a point to itself, and a circle whose radius `r / q` is 0 or
/// negative, plot no point.
pub proof fn lemma_degenerate_shapes_plot_nothing(p: (u32, u32), r: int, q: int, x: int, y: int)
    requires
        r <= 0,
        0 < q,
    ensures
        !line_plots(p, p, x, y),
        !circle_covers(p, r, q, x, y),
{
    let h = p.0 as int;
    lemma_div_bounds(h * q - r, q);
    lemma_div_bounds(2 * r + q, 2 * q);
    let f = (h * q - r) / q;
    let m = (2 * r + q) / (2 * q);
    assert(m <= 0) by (nonlinear_arith)
        requires
            2 * q * m <= 2 * r + q,
            r <= 0,
            0 < q,
    ;
    assert(f >= h) by (nonlinear_arith)
        requires
            q * f > h * q - r - q,
            r <= 0,
            0 < q,
    ;
}

/// `sqrt(d) / (2 * q)` rounded to the nearest integer, a half rounding up,
/// for any `d` up to `4 * p * p`; 0 where `d < q * q`.
pub fn half_root_of(d: i128, p: u32, q: u32) -> (n: u64)
    requires
        0 < q,
        d <= 4 * (p as int) * (p as int),
    ensures
        n as int == half_root(d as int, q as int),
        n <= p as int + 1,
{
    let mut lo: u64 = 0;
    let mut hi: u64 = p as u64 + 2;
    let ghost pi = p as int;
    let ghost qi = q as int;
    proof {
        assert(4 * pi * pi < ((2 * (pi + 2) - 1) * qi) * ((2 * (pi + 2) - 1) * qi)) by (nonlinear_arith)
            requires
                pi >= 0,
                qi >= 1,
        ;
    }
    while hi - lo > 1
        invariant
            0 < q,
            lo < hi <= p as u64 + 2,
            lo == 0 || ((2 * lo - 1) * q) * ((2 * lo - 1) * q) <= d as int,
            (d as int) < ((2 * hi - 1) * q) * ((2 * hi - 1) * q),
            d <= 4 * (p as int) * (p as int),
            pi == p,
            qi == q,
        decreases hi - lo,
    {
        let mid: u64 = lo + (hi - lo) / 2;
        proof {
            lemma_mul_le(2 * mid - 1, q as int, 0x2_0000_0003, u32::MAX as int);
        }
        let t: i128 = (2 * mid as i128 - 1) * q as i128;
        if t > 2 * p as i128 {
            proof {
                let ti = t as int;
                assert(4 * pi * pi < ti * ti) by (nonlinear_arith)
                    requires
                        ti > 2 * pi,
                        pi >= 0,
                ;
            }
            hi = mid;
        } else {
            proof {
                lemma_square_le(t as int, 2 * p as int);
                lemma_mul_le(p as int, p as int, u32::MAX as int, u32::MAX as int);
                assert((2 * pi) * (2 * pi) == 4 * (pi * pi)) by (nonlinear_arith);
            }
            if t * t <= d {
                lo = mid;
            } else {
                hi = mid;
            }
        }
    }
    proof {
        lemma_half_root_unique(d as int, q as int, lo as int);
    }
    lo
}

/// The row at column `x` of the line through `(x0, y0)` and `(x1, y1)`.
pub fn line_row_at(x0: u32, y0: u32, x1: u32, y1: u32, x: u32) -> (y: u128)
    requires
        x0 <= x < x1,
    ensures
        y as int == line_row(x0 as int, y0 as int, x1 as int, y1 as int, x as int),
{
    proof {
        lemma_mul_le(y0 as int, (x1 - x) as int, u32::MAX as int, u32::MAX as int);
        lemma_mul_le(y1 as int, (x - x0) as int, u32::MAX as int, u32::MAX as int);
    }
    let num: u128 = y0 as u128 * (x1 - x) as u128 + y1 as u128 * (x - x0) as u128;
    let den: u128 = (x1 - x0) as u128;
    (2 * num + den) / (2 * den)
}

} // verus!
