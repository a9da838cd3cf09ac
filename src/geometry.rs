//! Circle-versus-box overlap and the "cleared" test, on integer coordinates.
//!
//! A circle is given by its center and by the square of its diameter
//! (`w * w + h * h` for a body of extents `w` by `h`), so no square root is
//! ever taken: a point lies within the circle iff
//! `4 * distance_squared <= diameter_squared`.

use vstd::prelude::*;

verus! {

/// Largest magnitude of a coordinate or extent that the tests below accept.
pub const GEOMETRY_LIMIT: i64 = 0x0400_0000_0000_0000;

/// `v` clamped into `[lo, hi]`.
pub open spec fn clamp_spec(v: int, lo: int, hi: int) -> int {
    if v < lo {
        lo
    } else if v > hi {
        hi
    } else {
        v
    }
}

/// Whether the circle centered at `(cx, cy)` with squared diameter `dsq`
/// meets the axis-aligned box centered at `(bx, by)` with half-extents
/// `(hx, hy)`: the point of the box closest to the center lies in the circle.
pub open spec fn circle_meets_box(
    cx: int,
    cy: int,
    dsq: int,
    bx: int,
    by: int,
    hx: int,
    hy: int,
) -> bool {
    let px = clamp_spec(cx, bx - hx, bx + hx);
    let py = clamp_spec(cy, by - hy, by + hy);
    4 * ((px - cx) * (px - cx) + (py - cy) * (py - cy)) <= dsq
}

/// Whether the left edge of the circle centered at `cx` with squared diameter
/// `dsq` lies strictly to the right of `x`, i.e. `cx - radius > x`.
pub open spec fn left_edge_beyond(cx: int, dsq: int, x: int) -> bool {
    cx - x > 0 && 4 * ((cx - x) * (cx - x)) > dsq
}

/// Whether `v` is small enough for the squared distances below to fit.
pub open spec fn in_limit(v: int) -> bool {
    -GEOMETRY_LIMIT <= v <= GEOMETRY_LIMIT
}

fn clamp_i64(v: i64, lo: i64, hi: i64) -> (r: i64)
    requires
        lo <= hi,
    ensures
        r == clamp_spec(v as int, lo as int, hi as int),
{
    if v < lo {
        lo
    } else if v > hi {
        hi
    } else {
        v
    }
}

/// Squared diameter of the circle enclosing a `width` by `height` rectangle.
pub open spec fn diameter_sq(width: int, height: int) -> int {
    width * width + height * height
}

proof fn lemma_square_bound(v: int, b: int)
    requires
        0 <= b,
        -b <= v <= b,
    ensures
        0 <= v * v <= b * b,
{
    assert(0 <= v * v <= b * b) by (nonlinear_arith)
        requires
            0 <= b,
            -b <= v <= b,
    ;
}

/// Squared diameter of the circle enclosing a `width` by `height` rectangle.
pub fn enclosing_diameter_sq(width: i64, height: i64) -> (r: i128)
    requires
        in_limit(width as int),
        in_limit(height as int),
    ensures
        r == diameter_sq(width as int, height as int),
{
    proof {
        lemma_square_bound(width as int, GEOMETRY_LIMIT as int);
        lemma_square_bound(height as int, GEOMETRY_LIMIT as int);
    }
    let w = width as i128;
    let h = height as i128;
    w * w + h * h
}

/// Whether the circle centered at `(cx, cy)` with squared diameter `dsq` meets
/// the box centered at `(bx, by)` with half-extents `(hx, hy)`.
pub fn circle_intersects_box(
    cx: i64,
    cy: i64,
    dsq: i128,
    bx: i64,
    by: i64,
    hx: i64,
    hy: i64,
) -> (r: bool)
    requires
        in_limit(cx as int),
        in_limit(cy as int),
        in_limit(bx as int),
        in_limit(by as int),
        0 <= hx <= GEOMETRY_LIMIT,
        0 <= hy <= GEOMETRY_LIMIT,
    ensures
        r == circle_meets_box(
            cx as int,
            cy as int,
            dsq as int,
            bx as int,
            by as int,
            hx as int,
            hy as int,
        ),
{
    let px = clamp_i64(cx, bx - hx, bx + hx);
    let py = clamp_i64(cy, by - hy, by + hy);
    let dx = (px as i128) - (cx as i128);
    let dy = (py as i128) - (cy as i128);
    proof {
        lemma_square_bound(dx as int, 4 * GEOMETRY_LIMIT);
        lemma_square_bound(dy as int, 4 * GEOMETRY_LIMIT);
    }
    4 * (dx * dx + dy * dy) <= dsq
}

/// Whether the left edge of the circle centered at abscissa `cx` with squared
/// diameter `dsq` lies strictly to the right of `x`.
pub fn left_edge_passed(cx: i64, dsq: i128, x: i64) -> (r: bool)
    requires
        in_limit(cx as int),
        in_limit(x as int),
    ensures
        r == left_edge_beyond(cx as int, dsq as int, x as int),
{
    let d = (cx as i128) - (x as i128);
    proof {
        lemma_square_bound(d as int, 2 * GEOMETRY_LIMIT);
    }
    d > 0 && 4 * (d * d) > dsq
}

/// A circle of radius `r` centered at the origin and a box of half-extents
/// `(hx, hy)` centered at `(d, 0)`, with `d >= 0`, overlap when
/// `d < r + hx` and do not when `d > r + hx`.
pub proof fn lemma_overlap_on_axis(r: int, hx: int, hy: int, d: int)
    requires
        0 <= r,
        0 <= hx,
        0 <= hy,
        0 <= d,
    ensures
        d < r + hx ==> circle_meets_box(0, 0, 4 * (r * r), d, 0, hx, hy),
        d > r + hx ==> !circle_meets_box(0, 0, 4 * (r * r), d, 0, hx, hy),
{
    let px = clamp_spec(0, d - hx, d + hx);
    assert(clamp_spec(0, -hy, hy) == 0);
    if d - hx > 0 {
        assert(px == d - hx);
        let g = d - hx;
        if d < r + hx {
            assert(g * g <= r * r) by (nonlinear_arith)
                requires
                    0 < g < r,
            ;
            assert(4 * ((px - 0) * (px - 0) + (0 - 0) * (0 - 0)) <= 4 * (r * r));
        }
        if d > r + hx {
            assert(g * g > r * r) by (nonlinear_arith)
                requires
                    0 <= r < g,
            ;
            assert(4 * ((px - 0) * (px - 0) + (0 - 0) * (0 - 0)) > 4 * (r * r));
        }
    } else {
        assert(px == 0);
        assert(0 <= r * r) by (nonlinear_arith);
        assert(4 * ((px - 0) * (px - 0) + (0 - 0) * (0 - 0)) == 0);
    }
}

} // verus!
