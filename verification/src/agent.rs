//! The agent's geometry and its per-heading footprint cache.
//!
//! The agent is a rectangle given by half-extents in thousandths of a
//! cell. For every heading increment the cells covered by the rotated
//! rectangle are computed once: the rectangle is rotated with the
//! fixed-point sine and cosine of the heading, placed with its centre at
//! the centre of the cell `(0, 0)`, and tested against every candidate
//! cell of its bounding box with the separating-axis test over the
//! rectangle's two face normals and the two grid axes. Touching counts
//! as overlap, exactly as a non-strict projection comparison decides it.
//! All coordinates are carried as integers scaled by `65536000`
//! (thousandths of a cell times the trigonometric scale), so the test is
//! exact for the quantized rotation.

use vstd::prelude::*;

use crate::grid::GridVec;
use crate::trig::{sin_cos_fp, spec_cos_fp, spec_sin_fp};

verus! {

/// The least of four values.
pub open spec fn spec_min4(a: int, b: int, c: int, d: int) -> int {
    let m1 = if a <= b {
        a
    } else {
        b
    };
    let m2 = if c <= d {
        c
    } else {
        d
    };
    if m1 <= m2 {
        m1
    } else {
        m2
    }
}

/// The greatest of four values.
pub open spec fn spec_max4(a: int, b: int, c: int, d: int) -> int {
    let m1 = if a >= b {
        a
    } else {
        b
    };
    let m2 = if c >= d {
        c
    } else {
        d
    };
    if m1 >= m2 {
        m1
    } else {
        m2
    }
}

/// The x coordinate of a rectangle corner `(cx, cy)` rotated by the
/// angle whose sine and cosine (scaled) are `s` and `c`, shifted to the
/// centre of cell `(0, 0)`. Scale: thousandths of a cell times 65536.
pub open spec fn spec_rx(cx: int, cy: int, s: int, c: int) -> int {
    32768000 + cx * c - cy * s
}

/// The y coordinate of the same rotated, shifted corner.
pub open spec fn spec_ry(cx: int, cy: int, s: int, c: int) -> int {
    32768000 + cx * s + cy * c
}

/// The least projection of the rectangle's four corners onto the axis
/// `(ax, ay)`.
pub open spec fn spec_rect_proj_min(ax: int, ay: int, hw: int, hh: int, s: int, c: int) -> int {
    spec_min4(
        spec_rx(-hw, -hh, s, c) * ax + spec_ry(-hw, -hh, s, c) * ay,
        spec_rx(hw, -hh, s, c) * ax + spec_ry(hw, -hh, s, c) * ay,
        spec_rx(hw, hh, s, c) * ax + spec_ry(hw, hh, s, c) * ay,
        spec_rx(-hw, hh, s, c) * ax + spec_ry(-hw, hh, s, c) * ay,
    )
}

/// The greatest projection of the rectangle's four corners onto the
/// axis `(ax, ay)`.
pub open spec fn spec_rect_proj_max(ax: int, ay: int, hw: int, hh: int, s: int, c: int) -> int {
    spec_max4(
        spec_rx(-hw, -hh, s, c) * ax + spec_ry(-hw, -hh, s, c) * ay,
        spec_rx(hw, -hh, s, c) * ax + spec_ry(hw, -hh, s, c) * ay,
        spec_rx(hw, hh, s, c) * ax + spec_ry(hw, hh, s, c) * ay,
        spec_rx(-hw, hh, s, c) * ax + spec_ry(-hw, hh, s, c) * ay,
    )
}

/// The least projection of the unit cell `(x, y)`'s four corners onto
/// the axis `(ax, ay)`.
pub open spec fn spec_cell_proj_min(ax: int, ay: int, x: int, y: int) -> int {
    spec_min4(
        (x * 65536000) * ax + (y * 65536000) * ay,
        ((x + 1) * 65536000) * ax + (y * 65536000) * ay,
        (x * 65536000) * ax + ((y + 1) * 65536000) * ay,
        ((x + 1) * 65536000) * ax + ((y + 1) * 65536000) * ay,
    )
}

/// The greatest projection of the unit cell `(x, y)`'s four corners
/// onto the axis `(ax, ay)`.
pub open spec fn spec_cell_proj_max(ax: int, ay: int, x: int, y: int) -> int {
    spec_max4(
        (x * 65536000) * ax + (y * 65536000) * ay,
        ((x + 1) * 65536000) * ax + (y * 65536000) * ay,
        (x * 65536000) * ax + ((y + 1) * 65536000) * ay,
        ((x + 1) * 65536000) * ax + ((y + 1) * 65536000) * ay,
    )
}

/// Whether the rectangle's and the cell's projections onto `(ax, ay)`
/// overlap (touching included).
pub open spec fn spec_axis_overlap(
    ax: int,
    ay: int,
    hw: int,
    hh: int,
    s: int,
    c: int,
    x: int,
    y: int,
) -> bool {
    !(spec_rect_proj_max(ax, ay, hw, hh, s, c) < spec_cell_proj_min(ax, ay, x, y)
        || spec_cell_proj_max(ax, ay, x, y) < spec_rect_proj_min(ax, ay, hw, hh, s, c))
}

/// The separating-axis test: the rotated rectangle and the unit cell
/// `(x, y)` overlap exactly when no one of the four candidate axes
/// separates their projections.
pub open spec fn spec_cell_overlaps(hw: int, hh: int, s: int, c: int, x: int, y: int) -> bool {
    &&& spec_axis_overlap(c, s, hw, hh, s, c, x, y)
    &&& spec_axis_overlap(-s, c, hw, hh, s, c, x, y)
    &&& spec_axis_overlap(1, 0, hw, hh, s, c, x, y)
    &&& spec_axis_overlap(0, 1, hw, hh, s, c, x, y)
}

/// A scaled coordinate rounded to whole cells, half away from zero.
pub open spec fn spec_round_cells(a: int) -> int {
    if a >= 0 {
        (a + 32768000) / 65536000
    } else {
        -((-a + 32768000) / 65536000)
    }
}

/// The first candidate column of the rotated rectangle's bounding box.
pub open spec fn spec_x_lo(hw: int, hh: int, s: int, c: int) -> int {
    spec_round_cells(spec_rect_proj_min(1, 0, hw, hh, s, c))
}

/// The last candidate column.
pub open spec fn spec_x_hi(hw: int, hh: int, s: int, c: int) -> int {
    spec_round_cells(spec_rect_proj_max(1, 0, hw, hh, s, c))
}

/// The first candidate row.
pub open spec fn spec_y_lo(hw: int, hh: int, s: int, c: int) -> int {
    spec_round_cells(spec_rect_proj_min(0, 1, hw, hh, s, c))
}

/// The last candidate row.
pub open spec fn spec_y_hi(hw: int, hh: int, s: int, c: int) -> int {
    spec_round_cells(spec_rect_proj_max(0, 1, hw, hh, s, c))
}

/// Whether `(x, y)` lies in the candidate box of the rotated rectangle.
pub open spec fn spec_in_box(hw: int, hh: int, s: int, c: int, x: int, y: int) -> bool {
    spec_x_lo(hw, hh, s, c) <= x <= spec_x_hi(hw, hh, s, c) && spec_y_lo(hw, hh, s, c) <= y
        <= spec_y_hi(hw, hh, s, c)
}

/// Whether `(x, y)` belongs to the footprint of the rotated rectangle:
/// a candidate cell that the separating-axis test reports as covered.
pub open spec fn spec_in_footprint(hw: int, hh: int, s: int, c: int, x: int, y: int) -> bool {
    spec_in_box(hw, hh, s, c, x, y) && spec_cell_overlaps(hw, hh, s, c, x, y)
}

/// Lexicographic order on cell offsets: by column, then by row.
pub open spec fn spec_lex_lt(a: GridVec, b: GridVec) -> bool {
    a.x < b.x || (a.x == b.x && a.y < b.y)
}

/// A bounded product, with the bound that the footprint arithmetic
/// needs.
fn mul_bounded(a: i64, b: i64) -> (r: i64)
    requires
        -300_000_000_000 <= a <= 300_000_000_000,
        -65536 <= b <= 65536,
    ensures
        r == a * b,
        -19_660_800_000_000_000 <= r <= 19_660_800_000_000_000,
{
    proof {
        assert(-19_660_800_000_000_000 <= a * b <= 19_660_800_000_000_000) by (nonlinear_arith)
            requires
                -300_000_000_000 <= a <= 300_000_000_000,
                -65536 <= b <= 65536,
        ;
    }
    a * b
}

/// A corner-coordinate product: both factors small, the result within
/// the corner-coordinate range.
fn mul_corner(a: i64, b: i64) -> (r: i64)
    requires
        -500000 <= a <= 500000,
        -65536 <= b <= 65536,
    ensures
        r == a * b,
        -32768000000 <= r <= 32768000000,
{
    proof {
        assert(-32768000000 <= a * b <= 32768000000) by (nonlinear_arith)
            requires
                -500000 <= a <= 500000,
                -65536 <= b <= 65536,
        ;
    }
    a * b
}

/// The least of four values, executably.
fn min4_i64(a: i64, b: i64, c: i64, d: i64) -> (r: i64)
    ensures
        r == spec_min4(a as int, b as int, c as int, d as int),
{
    let m1 = if a <= b {
        a
    } else {
        b
    };
    let m2 = if c <= d {
        c
    } else {
        d
    };
    if m1 <= m2 {
        m1
    } else {
        m2
    }
}

/// The greatest of four values, executably.
fn max4_i64(a: i64, b: i64, c: i64, d: i64) -> (r: i64)
    ensures
        r == spec_max4(a as int, b as int, c as int, d as int),
{
    let m1 = if a >= b {
        a
    } else {
        b
    };
    let m2 = if c >= d {
        c
    } else {
        d
    };
    if m1 >= m2 {
        m1
    } else {
        m2
    }
}

/// The projections of the rotated, shifted rectangle onto `(ax, ay)`.
fn rect_proj_bounds(ax: i64, ay: i64, hw: i64, hh: i64, s: i64, c: i64) -> (r: (i64, i64))
    requires
        -65536 <= ax <= 65536,
        -65536 <= ay <= 65536,
        0 <= hw <= 500000,
        0 <= hh <= 500000,
        -65536 <= s <= 65536,
        -65536 <= c <= 65536,
    ensures
        r.0 == spec_rect_proj_min(ax as int, ay as int, hw as int, hh as int, s as int, c as int),
        r.1 == spec_rect_proj_max(ax as int, ay as int, hw as int, hh as int, s as int, c as int),
        -80_000_000_000_000_000 <= r.0 <= 80_000_000_000_000_000,
        -80_000_000_000_000_000 <= r.1 <= 80_000_000_000_000_000,
{
    let rx0: i64 = 32768000 + mul_corner(-hw, c) - mul_corner(-hh, s);
    let ry0: i64 = 32768000 + mul_corner(-hw, s) + mul_corner(-hh, c);
    let rx1: i64 = 32768000 + mul_corner(hw, c) - mul_corner(-hh, s);
    let ry1: i64 = 32768000 + mul_corner(hw, s) + mul_corner(-hh, c);
    let rx2: i64 = 32768000 + mul_corner(hw, c) - mul_corner(hh, s);
    let ry2: i64 = 32768000 + mul_corner(hw, s) + mul_corner(hh, c);
    let rx3: i64 = 32768000 + mul_corner(-hw, c) - mul_corner(hh, s);
    let ry3: i64 = 32768000 + mul_corner(-hw, s) + mul_corner(hh, c);
    let p0: i64 = mul_bounded(rx0, ax) + mul_bounded(ry0, ay);
    let p1: i64 = mul_bounded(rx1, ax) + mul_bounded(ry1, ay);
    let p2: i64 = mul_bounded(rx2, ax) + mul_bounded(ry2, ay);
    let p3: i64 = mul_bounded(rx3, ax) + mul_bounded(ry3, ay);
    (min4_i64(p0, p1, p2, p3), max4_i64(p0, p1, p2, p3))
}

/// The projections of the unit cell `(x, y)` onto `(ax, ay)`.
fn cell_proj_bounds(ax: i64, ay: i64, x: i64, y: i64) -> (r: (i64, i64))
    requires
        -65536 <= ax <= 65536,
        -65536 <= ay <= 65536,
        -4095 <= x <= 4095,
        -4095 <= y <= 4095,
    ensures
        r.0 == spec_cell_proj_min(ax as int, ay as int, x as int, y as int),
        r.1 == spec_cell_proj_max(ax as int, ay as int, x as int, y as int),
{
    let x0: i64 = x * 65536000;
    let x1: i64 = (x + 1) * 65536000;
    let y0: i64 = y * 65536000;
    let y1: i64 = (y + 1) * 65536000;
    let q0: i64 = mul_bounded(x0, ax) + mul_bounded(y0, ay);
    let q1: i64 = mul_bounded(x1, ax) + mul_bounded(y0, ay);
    let q2: i64 = mul_bounded(x0, ax) + mul_bounded(y1, ay);
    let q3: i64 = mul_bounded(x1, ax) + mul_bounded(y1, ay);
    (min4_i64(q0, q1, q2, q3), max4_i64(q0, q1, q2, q3))
}

/// The separating-axis test, executably.
fn cell_overlaps_exec(hw: i64, hh: i64, s: i64, c: i64, x: i64, y: i64) -> (r: bool)
    requires
        0 <= hw <= 500000,
        0 <= hh <= 500000,
        -65536 <= s <= 65536,
        -65536 <= c <= 65536,
        -4095 <= x <= 4095,
        -4095 <= y <= 4095,
    ensures
        r == spec_cell_overlaps(hw as int, hh as int, s as int, c as int, x as int, y as int),
{
    let (amin1, amax1) = rect_proj_bounds(c, s, hw, hh, s, c);
    let (bmin1, bmax1) = cell_proj_bounds(c, s, x, y);
    if amax1 < bmin1 || bmax1 < amin1 {
        return false;
    }
    let (amin2, amax2) = rect_proj_bounds(-s, c, hw, hh, s, c);
    let (bmin2, bmax2) = cell_proj_bounds(-s, c, x, y);
    if amax2 < bmin2 || bmax2 < amin2 {
        return false;
    }
    let (amin3, amax3) = rect_proj_bounds(1, 0, hw, hh, s, c);
    let (bmin3, bmax3) = cell_proj_bounds(1, 0, x, y);
    if amax3 < bmin3 || bmax3 < amin3 {
        return false;
    }
    let (amin4, amax4) = rect_proj_bounds(0, 1, hw, hh, s, c);
    let (bmin4, bmax4) = cell_proj_bounds(0, 1, x, y);
    if amax4 < bmin4 || bmax4 < amin4 {
        return false;
    }
    true
}

/// A scaled coordinate rounded to whole cells, half away from zero.
fn round_cells(a: i64) -> (r: i32)
    requires
        -80_000_000_000_000_000 <= a <= 80_000_000_000_000_000,
    ensures
        r == spec_round_cells(a as int),
        -1_300_000_000 <= r <= 1_300_000_000,
{
    if a >= 0 {
        let q: i64 = (a + 32768000) / 65536000;
        proof {
            vstd::arithmetic::div_mod::lemma_div_is_ordered(
                a + 32768000,
                80_000_032_768_000_000,
                65536000,
            );
            vstd::arithmetic::div_mod::lemma_div_pos_is_pos(a + 32768000, 65536000);
        }
        q as i32
    } else {
        let q: i64 = (-a + 32768000) / 65536000;
        proof {
            vstd::arithmetic::div_mod::lemma_div_is_ordered(
                -a + 32768000,
                80_000_032_768_000_000,
                65536000,
            );
            vstd::arithmetic::div_mod::lemma_div_pos_is_pos(-a + 32768000, 65536000);
        }
        -(q as i32)
    }
}

/// The candidate box of a bounded rectangle under a unit rotation is
/// itself small: every rounded bound stays within a few thousand cells.
proof fn lemma_box_bounds(hw: int, hh: int, s: int, c: int)
    requires
        0 <= hw <= 500000,
        0 <= hh <= 500000,
        -65536 <= s <= 65536,
        -65536 <= c <= 65536,
    ensures
        -4095 <= spec_x_lo(hw, hh, s, c) <= 4095,
        -4095 <= spec_x_hi(hw, hh, s, c) <= 4095,
        -4095 <= spec_y_lo(hw, hh, s, c) <= 4095,
        -4095 <= spec_y_hi(hw, hh, s, c) <= 4095,
{
    assert(-32768000000 <= hw * c <= 32768000000 && -32768000000 <= hh * s <= 32768000000
        && -32768000000 <= hw * s <= 32768000000 && -32768000000 <= hh * c <= 32768000000
        && -32768000000 <= (-hw) * c <= 32768000000 && -32768000000 <= (-hh) * s <= 32768000000
        && -32768000000 <= (-hw) * s <= 32768000000 && -32768000000 <= (-hh) * c <= 32768000000)
        by (nonlinear_arith)
        requires
            0 <= hw <= 500000,
            0 <= hh <= 500000,
            -65536 <= s <= 65536,
            -65536 <= c <= 65536,
    ;
    lemma_round_cells_bound(spec_rect_proj_min(1, 0, hw, hh, s, c));
    lemma_round_cells_bound(spec_rect_proj_max(1, 0, hw, hh, s, c));
    lemma_round_cells_bound(spec_rect_proj_min(0, 1, hw, hh, s, c));
    lemma_round_cells_bound(spec_rect_proj_max(0, 1, hw, hh, s, c));
}

/// Rounding a coordinate within the reachable range gives a small cell
/// index.
proof fn lemma_round_cells_bound(a: int)
    requires
        -66000000000 <= a <= 66000000000,
    ensures
        -4095 <= spec_round_cells(a) <= 4095,
{
    if a >= 0 {
        vstd::arithmetic::div_mod::lemma_div_is_ordered(a + 32768000, 66032768000, 65536000);
        vstd::arithmetic::div_mod::lemma_div_pos_is_pos(a + 32768000, 65536000);
    } else {
        vstd::arithmetic::div_mod::lemma_div_is_ordered(-a + 32768000, 66032768000, 65536000);
        vstd::arithmetic::div_mod::lemma_div_pos_is_pos(-a + 32768000, 65536000);
    }
}

/// Half of a size in the stored range is itself in range.
proof fn lemma_half_extent_bounds(size: int)
    requires
        2 <= size <= 1000000,
    ensures
        1 <= size / 2 <= 500000,
{
    vstd::arithmetic::div_mod::lemma_div_is_ordered(2, size, 2);
    vstd::arithmetic::div_mod::lemma_div_is_ordered(size, 1000000, 2);
    vstd::arithmetic::div_mod::lemma_fundamental_div_mod_converse(2, 2, 1, 0);
    vstd::arithmetic::div_mod::lemma_fundamental_div_mod_converse(1000000, 2, 500000, 0);
}

/// A coordinate at most half a cell before the first cell boundary
/// rounds to a non-positive cell index.
proof fn lemma_round_le_zero(a: int)
    requires
        a <= 32767999,
    ensures
        spec_round_cells(a) <= 0,
{
    if a >= 0 {
        vstd::arithmetic::div_mod::lemma_basic_div(a + 32768000, 65536000);
    } else {
        vstd::arithmetic::div_mod::lemma_div_pos_is_pos(-a + 32768000, 65536000);
    }
}

/// A coordinate at or past the centre of the first cell rounds to a
/// non-negative cell index.
proof fn lemma_round_ge_zero(a: int)
    requires
        a >= 0,
    ensures
        spec_round_cells(a) >= 0,
{
    vstd::arithmetic::div_mod::lemma_div_pos_is_pos(a + 32768000, 65536000);
}

/// On any axis, the projections of the rotated rectangle and of the
/// cell `(0, 0)` both straddle the projection of their shared centre
/// point, so they overlap.
proof fn lemma_axis_overlap_origin(ax: int, ay: int, hw: int, hh: int, s: int, c: int)
    ensures
        spec_axis_overlap(ax, ay, hw, hh, s, c, 0, 0),
{
    let rx1 = spec_rx(-hw, -hh, s, c);
    let ry1 = spec_ry(-hw, -hh, s, c);
    let rx3 = spec_rx(hw, hh, s, c);
    let ry3 = spec_ry(hw, hh, s, c);
    let p1 = rx1 * ax + ry1 * ay;
    let p3 = rx3 * ax + ry3 * ay;
    assert(p1 + p3 == 65536000 * ax + 65536000 * ay) by (nonlinear_arith)
        requires
            rx1 == 32768000 + (-hw) * c - (-hh) * s,
            ry1 == 32768000 + (-hw) * s + (-hh) * c,
            rx3 == 32768000 + hw * c - hh * s,
            ry3 == 32768000 + hw * s + hh * c,
            p1 == rx1 * ax + ry1 * ay,
            p3 == rx3 * ax + ry3 * ay,
    ;
    let q1 = (0int * 65536000) * ax + (0int * 65536000) * ay;
    let q4 = ((0int + 1) * 65536000) * ax + ((0int + 1) * 65536000) * ay;
    assert(q1 + q4 == 65536000 * ax + 65536000 * ay);
    let rmin = spec_rect_proj_min(ax, ay, hw, hh, s, c);
    let rmax = spec_rect_proj_max(ax, ay, hw, hh, s, c);
    let cmin = spec_cell_proj_min(ax, ay, 0, 0);
    let cmax = spec_cell_proj_max(ax, ay, 0, 0);
    assert(rmin <= p1 && rmin <= p3 && rmax >= p1 && rmax >= p3);
    assert(cmin <= q1 && cmin <= q4 && cmax >= q1 && cmax >= q4);
    assert(2 * rmax >= p1 + p3 && 2 * cmin <= q1 + q4);
    assert(2 * cmax >= q1 + q4 && 2 * rmin <= p1 + p3);
}

/// The centre cell belongs to every footprint: an agent at least a
/// couple of thousandths wide always covers the cell it stands on.
proof fn lemma_origin_in_footprint(hw: int, hh: int, s: int, c: int)
    requires
        1 <= hw <= 500000,
        1 <= hh <= 500000,
        -65536 <= s <= 65536,
        -65536 <= c <= 65536,
        s != 0 || c != 0,
    ensures
        spec_in_footprint(hw, hh, s, c, 0, 0),
{
    lemma_axis_overlap_origin(c, s, hw, hh, s, c);
    lemma_axis_overlap_origin(-s, c, hw, hh, s, c);
    lemma_axis_overlap_origin(1, 0, hw, hh, s, c);
    lemma_axis_overlap_origin(0, 1, hw, hh, s, c);
    let minx = spec_rect_proj_min(1, 0, hw, hh, s, c);
    let maxx = spec_rect_proj_max(1, 0, hw, hh, s, c);
    let miny = spec_rect_proj_min(0, 1, hw, hh, s, c);
    let maxy = spec_rect_proj_max(0, 1, hw, hh, s, c);
    assert(minx <= 32767999) by {
        if c >= 0 && s >= 0 {
            let v = spec_rx(-hw, hh, s, c) * 1 + spec_ry(-hw, hh, s, c) * 0;
            assert(minx <= v);
            assert(v <= 32767999) by (nonlinear_arith)
                requires
                    v == (32768000 + (-hw) * c - hh * s) * 1 + (32768000 + (-hw) * s + hh * c) * 0,
                    hw >= 1 && hh >= 1 && c >= 0 && s >= 0 && (c >= 1 || s >= 1),
            ;
        } else if c >= 0 && s < 0 {
            let v = spec_rx(-hw, -hh, s, c) * 1 + spec_ry(-hw, -hh, s, c) * 0;
            assert(minx <= v);
            assert(v <= 32767999) by (nonlinear_arith)
                requires
                    v == (32768000 + (-hw) * c - (-hh) * s) * 1 + (32768000 + (-hw) * s + (-hh) * c)
                        * 0,
                    hw >= 1 && hh >= 1 && c >= 0 && s < 0,
            ;
        } else if c < 0 && s >= 0 {
            let v = spec_rx(hw, hh, s, c) * 1 + spec_ry(hw, hh, s, c) * 0;
            assert(minx <= v);
            assert(v <= 32767999) by (nonlinear_arith)
                requires
                    v == (32768000 + hw * c - hh * s) * 1 + (32768000 + hw * s + hh * c) * 0,
                    hw >= 1 && hh >= 1 && c < 0 && s >= 0,
            ;
        } else {
            let v = spec_rx(hw, -hh, s, c) * 1 + spec_ry(hw, -hh, s, c) * 0;
            assert(minx <= v);
            assert(v <= 32767999) by (nonlinear_arith)
                requires
                    v == (32768000 + hw * c - (-hh) * s) * 1 + (32768000 + hw * s + (-hh) * c) * 0,
                    hw >= 1 && hh >= 1 && c < 0 && s < 0,
            ;
        }
    }
    assert(miny <= 32767999) by {
        if s >= 0 && c >= 0 {
            let v = spec_rx(-hw, -hh, s, c) * 0 + spec_ry(-hw, -hh, s, c) * 1;
            assert(miny <= v);
            assert(v <= 32767999) by (nonlinear_arith)
                requires
                    v == (32768000 + (-hw) * c - (-hh) * s) * 0 + (32768000 + (-hw) * s + (-hh) * c)
                        * 1,
                    hw >= 1 && hh >= 1 && s >= 0 && c >= 0 && (c >= 1 || s >= 1),
            ;
        } else if s >= 0 && c < 0 {
            let v = spec_rx(-hw, hh, s, c) * 0 + spec_ry(-hw, hh, s, c) * 1;
            assert(miny <= v);
            assert(v <= 32767999) by (nonlinear_arith)
                requires
                    v == (32768000 + (-hw) * c - hh * s) * 0 + (32768000 + (-hw) * s + hh * c) * 1,
                    hw >= 1 && hh >= 1 && s >= 0 && c < 0,
            ;
        } else if s < 0 && c >= 0 {
            let v = spec_rx(hw, -hh, s, c) * 0 + spec_ry(hw, -hh, s, c) * 1;
            assert(miny <= v);
            assert(v <= 32767999) by (nonlinear_arith)
                requires
                    v == (32768000 + hw * c - (-hh) * s) * 0 + (32768000 + hw * s + (-hh) * c) * 1,
                    hw >= 1 && hh >= 1 && s < 0 && c >= 0,
            ;
        } else {
            let v = spec_rx(hw, hh, s, c) * 0 + spec_ry(hw, hh, s, c) * 1;
            assert(miny <= v);
            assert(v <= 32767999) by (nonlinear_arith)
                requires
                    v == (32768000 + hw * c - hh * s) * 0 + (32768000 + hw * s + hh * c) * 1,
                    hw >= 1 && hh >= 1 && s < 0 && c < 0,
            ;
        }
    }
    assert(maxx >= 32768000 && maxy >= 32768000) by {
        let rx1 = spec_rx(-hw, -hh, s, c);
        let ry1 = spec_ry(-hw, -hh, s, c);
        let rx3 = spec_rx(hw, hh, s, c);
        let ry3 = spec_ry(hw, hh, s, c);
        assert(rx1 + rx3 == 65536000 && ry1 + ry3 == 65536000) by (nonlinear_arith)
            requires
                rx1 == 32768000 + (-hw) * c - (-hh) * s,
                ry1 == 32768000 + (-hw) * s + (-hh) * c,
                rx3 == 32768000 + hw * c - hh * s,
                ry3 == 32768000 + hw * s + hh * c,
        ;
        assert(maxx >= rx1 * 1 + ry1 * 0 && maxx >= rx3 * 1 + ry3 * 0);
        assert(maxy >= rx1 * 0 + ry1 * 1 && maxy >= rx3 * 0 + ry3 * 1);
    }
    lemma_round_le_zero(minx);
    lemma_round_le_zero(miny);
    lemma_round_ge_zero(maxx);
    lemma_round_ge_zero(maxy);
    assert(spec_in_box(hw, hh, s, c, 0, 0));
}

/// At the identity heading the separating-axis test against cell
/// `(x, y)` is a plain interval test: the rectangle spans half a cell
/// plus its half-extent around the centre on each axis.
proof fn lemma_overlap_identity(hw: int, hh: int, x: int, y: int)
    requires
        0 <= hw,
        0 <= hh,
    ensures
        spec_cell_overlaps(hw, hh, 0, 65536, x, y) == {
            &&& x * 65536000 <= 32768000 + hw * 65536
            &&& 32768000 - hw * 65536 <= (x + 1) * 65536000
            &&& y * 65536000 <= 32768000 + hh * 65536
            &&& 32768000 - hh * 65536 <= (y + 1) * 65536000
        },
{
    assert(spec_rect_proj_min(65536, 0, hw, hh, 0, 65536) == (32768000 - hw * 65536) * 65536);
    assert(spec_rect_proj_max(65536, 0, hw, hh, 0, 65536) == (32768000 + hw * 65536) * 65536);
    assert(spec_cell_proj_min(65536, 0, x, y) == (x * 65536000) * 65536);
    assert(spec_cell_proj_max(65536, 0, x, y) == ((x + 1) * 65536000) * 65536);
    assert(spec_rect_proj_min(0, 65536, hw, hh, 0, 65536) == (32768000 - hh * 65536) * 65536);
    assert(spec_rect_proj_max(0, 65536, hw, hh, 0, 65536) == (32768000 + hh * 65536) * 65536);
    assert(spec_cell_proj_min(0, 65536, x, y) == (y * 65536000) * 65536);
    assert(spec_cell_proj_max(0, 65536, x, y) == ((y + 1) * 65536000) * 65536);
    assert(spec_rect_proj_min(1, 0, hw, hh, 0, 65536) == 32768000 - hw * 65536);
    assert(spec_rect_proj_max(1, 0, hw, hh, 0, 65536) == 32768000 + hw * 65536);
    assert(spec_cell_proj_min(1, 0, x, y) == x * 65536000);
    assert(spec_cell_proj_max(1, 0, x, y) == (x + 1) * 65536000);
    assert(spec_rect_proj_min(0, 1, hw, hh, 0, 65536) == 32768000 - hh * 65536);
    assert(spec_rect_proj_max(0, 1, hw, hh, 0, 65536) == 32768000 + hh * 65536);
    assert(spec_cell_proj_min(0, 1, x, y) == y * 65536000);
    assert(spec_cell_proj_max(0, 1, x, y) == (y + 1) * 65536000);
}

/// At the identity heading the candidate box of an agent of less than
/// one cell of half-extent is the two-by-two block at the origin.
proof fn lemma_identity_box(hw: int, hh: int)
    requires
        1 <= hw <= 999,
        1 <= hh <= 999,
    ensures
        spec_x_lo(hw, hh, 0, 65536) == 0,
        spec_x_hi(hw, hh, 0, 65536) == 1,
        spec_y_lo(hw, hh, 0, 65536) == 0,
        spec_y_hi(hw, hh, 0, 65536) == 1,
{
    assert(spec_rect_proj_min(1, 0, hw, hh, 0, 65536) == 32768000 - hw * 65536);
    assert(spec_rect_proj_max(1, 0, hw, hh, 0, 65536) == 32768000 + hw * 65536);
    assert(spec_rect_proj_min(0, 1, hw, hh, 0, 65536) == 32768000 - hh * 65536);
    assert(spec_rect_proj_max(0, 1, hw, hh, 0, 65536) == 32768000 + hh * 65536);
    lemma_identity_round_lo(32768000 - hw * 65536);
    lemma_identity_round_lo(32768000 - hh * 65536);
    lemma_identity_round_hi(32768000 + hw * 65536);
    lemma_identity_round_hi(32768000 + hh * 65536);
}

/// The low edge of such a box rounds to cell zero.
proof fn lemma_identity_round_lo(a: int)
    requires
        -32702464 <= a <= 32702464,
    ensures
        spec_round_cells(a) == 0,
{
    if a >= 0 {
        vstd::arithmetic::div_mod::lemma_basic_div(a + 32768000, 65536000);
    } else {
        vstd::arithmetic::div_mod::lemma_basic_div(-a + 32768000, 65536000);
    }
}

/// The high edge of such a box rounds to cell one.
proof fn lemma_identity_round_hi(a: int)
    requires
        32833536 <= a <= 98238464,
    ensures
        spec_round_cells(a) == 1,
{
    vstd::arithmetic::div_mod::lemma_fundamental_div_mod_converse(
        a + 32768000,
        65536000,
        1,
        a - 32768000,
    );
}

/// A footprint list for half-extents `hw, hh` and heading `h` of `n`
/// is exactly the footprint membership predicate of that heading,
/// listed in strictly increasing lexicographic order, with small
/// offsets.
pub open spec fn spec_footprint_list_ok_raw(
    hw: int,
    hh: int,
    n: int,
    h: int,
    v: Seq<GridVec>,
) -> bool {
    let si = spec_sin_fp(h, n);
    let ci = spec_cos_fp(h, n);
    &&& (forall|i: int|
        0 <= i < v.len() ==> spec_in_footprint(
            hw,
            hh,
            si,
            ci,
            (#[trigger] v[i]).x as int,
            v[i].y as int,
        ))
    &&& (forall|x: int, y: int|
        spec_in_footprint(hw, hh, si, ci, x, y) ==> v.contains(
            GridVec { x: x as i32, y: y as i32 },
        ))
    &&& (forall|i: int, j: int| 0 <= i < j < v.len() ==> spec_lex_lt(v[i], v[j]))
    &&& (forall|i: int|
        0 <= i < v.len() ==> -4095 <= (#[trigger] v[i]).x <= 4095 && -4095 <= v[i].y <= 4095)
}

/// The rectangular agent: its pose, its half-extents in thousandths of
/// a cell, and the footprint cache built once for every heading.
pub struct Agent {
    pub position: GridVec,
    pub size_x_milli: u32,
    pub size_y_milli: u32,
    /// Heading in increments.
    pub rotation: i16,
    pub max_increments: u16,
    /// One footprint list per heading; read it through
    /// [`Agent::rotation_footprint`].
    pub footprints_cache: Vec<Vec<GridVec>>,
}

impl Agent {
    /// Half the agent's width, in thousandths of a cell.
    pub closed spec fn spec_half_w(&self) -> int {
        self.size_x_milli as int / 2
    }

    /// Half the agent's height, in thousandths of a cell.
    pub closed spec fn spec_half_h(&self) -> int {
        self.size_y_milli as int / 2
    }

    /// Whether offset `(x, y)` belongs to the agent's footprint at
    /// heading `h`.
    pub closed spec fn spec_in_rotation_footprint(&self, h: int, x: int, y: int) -> bool {
        spec_in_footprint(
            self.spec_half_w(),
            self.spec_half_h(),
            spec_sin_fp(h, self.max_increments as int),
            spec_cos_fp(h, self.max_increments as int),
            x,
            y,
        )
    }

    /// One cached footprint list is exactly the footprint membership
    /// predicate of its heading, listed in strictly increasing
    /// lexicographic order, with small offsets.
    pub open spec fn spec_footprint_list_ok(&self, h: int, v: Seq<GridVec>) -> bool {
        &&& (forall|i: int|
            0 <= i < v.len() ==> self.spec_in_rotation_footprint(
                h,
                (#[trigger] v[i]).x as int,
                v[i].y as int,
            ))
        &&& (forall|x: int, y: int|
            self.spec_in_rotation_footprint(h, x, y) ==> v.contains(
                GridVec { x: x as i32, y: y as i32 },
            ))
        &&& (forall|i: int, j: int| 0 <= i < j < v.len() ==> spec_lex_lt(v[i], v[j]))
        &&& (forall|i: int|
            0 <= i < v.len() ==> -4095 <= (#[trigger] v[i]).x <= 4095 && -4095 <= v[i].y <= 4095)
        &&& (forall|x: int, y: int|
            self.spec_in_rotation_footprint(h, x, y) ==> -4095 <= x <= 4095 && -4095 <= y <= 4095)
    }

    /// The cache holds one such list per heading, and the stored
    /// parameters are in range.
    pub closed spec fn wf(&self) -> bool {
        &&& 0 < self.max_increments <= 16383
        &&& 0 <= self.rotation < self.max_increments
        &&& 2 <= self.size_x_milli <= 1000000
        &&& 2 <= self.size_y_milli <= 1000000
        &&& self.footprints_cache@.len() == self.max_increments
        &&& (forall|h: int|
            0 <= h < self.max_increments ==> self.spec_footprint_list_ok(
                h,
                (#[trigger] self.footprints_cache@[h])@,
            ))
    }

    /// Builds the agent and its footprint cache: for every heading, the
    /// rotated rectangle's candidate box is scanned column by column and
    /// row by row, and the cells the separating-axis test reports as
    /// covered are kept, in that order.
    #[verifier::loop_isolation(false)]
    pub fn new(
        position: GridVec,
        size_x_milli: u32,
        size_y_milli: u32,
        rotation: i16,
        max_increments: u16,
    ) -> (agent: Agent)
        requires
            0 < max_increments <= 16383,
            0 <= rotation < max_increments,
            2 <= size_x_milli <= 1000000,
            2 <= size_y_milli <= 1000000,
        ensures
            agent.wf(),
            agent.position == position,
            agent.size_x_milli == size_x_milli,
            agent.size_y_milli == size_y_milli,
            agent.rotation == rotation,
            agent.max_increments == max_increments,
    {
        let n = max_increments;
        let hw: i64 = (size_x_milli / 2) as i64;
        let hh: i64 = (size_y_milli / 2) as i64;
        let mut footprints_cache: Vec<Vec<GridVec>> = Vec::new();
        let mut h: u16 = 0;
        while h < n
            invariant
                h <= n,
                footprints_cache@.len() == h,
                forall|hh_i: int|
                    0 <= hh_i < h ==> spec_footprint_list_ok_raw(
                        hw as int,
                        hh as int,
                        n as int,
                        hh_i,
                        (#[trigger] footprints_cache@[hh_i])@,
                    ),
            decreases n - h,
        {
            let (s32, c32) = sin_cos_fp(h, n);
            let s: i64 = s32 as i64;
            let c: i64 = c32 as i64;
            let ghost hwi = hw as int;
            let ghost hhi = hh as int;
            let ghost si = s as int;
            let ghost ci = c as int;
            let (min_x, max_x) = rect_proj_bounds(1, 0, hw, hh, s, c);
            let (min_y, max_y) = rect_proj_bounds(0, 1, hw, hh, s, c);
            let x_lo: i32 = round_cells(min_x);
            let x_hi: i32 = round_cells(max_x);
            let y_lo: i32 = round_cells(min_y);
            let y_hi: i32 = round_cells(max_y);
            proof {
                assert(x_lo == spec_x_lo(hwi, hhi, si, ci));
                assert(x_hi == spec_x_hi(hwi, hhi, si, ci));
                assert(y_lo == spec_y_lo(hwi, hhi, si, ci));
                assert(y_hi == spec_y_hi(hwi, hhi, si, ci));
                lemma_box_bounds(hwi, hhi, si, ci);
            }
            let mut fp: Vec<GridVec> = Vec::new();
            {
                let mut x: i32 = x_lo;
                while x <= x_hi
                    invariant
                        x_lo <= x <= x_hi + 1,
                        -4095 <= x_lo,
                        x_hi <= 4095,
                        -4095 <= y_lo,
                        y_hi <= 4095,
                        forall|i: int|
                            0 <= i < fp@.len() ==> spec_in_footprint(
                                hwi,
                                hhi,
                                si,
                                ci,
                                (#[trigger] fp@[i]).x as int,
                                fp@[i].y as int,
                            ),
                        forall|i: int|
                            0 <= i < fp@.len() ==> -4095 <= (#[trigger] fp@[i]).x <= 4095 && -4095
                                <= fp@[i].y <= 4095,
                        forall|i: int, j: int| 0 <= i < j < fp@.len() ==> spec_lex_lt(fp@[i], fp@[j]),
                        fp@.len() > 0 ==> fp@[fp@.len() - 1].x < x,
                        forall|a: int, b: int|
                            spec_in_footprint(hwi, hhi, si, ci, a, b) && a < x ==> fp@.contains(
                                GridVec { x: a as i32, y: b as i32 },
                            ),
                    decreases x_hi + 1 - x,
                {
                    let mut y: i32 = y_lo;
                    while y <= y_hi
                        invariant
                            y_lo <= y <= y_hi + 1,
                            x_lo <= x <= x_hi,
                            forall|i: int|
                                0 <= i < fp@.len() ==> spec_in_footprint(
                                    hwi,
                                    hhi,
                                    si,
                                    ci,
                                    (#[trigger] fp@[i]).x as int,
                                    fp@[i].y as int,
                                ),
                            forall|i: int|
                                0 <= i < fp@.len() ==> -4095 <= (#[trigger] fp@[i]).x <= 4095
                                    && -4095 <= fp@[i].y <= 4095,
                            forall|i: int, j: int|
                                0 <= i < j < fp@.len() ==> spec_lex_lt(fp@[i], fp@[j]),
                            fp@.len() > 0 ==> (fp@[fp@.len() - 1].x < x || (fp@[fp@.len() - 1].x
                                == x && fp@[fp@.len() - 1].y < y)),
                            forall|a: int, b: int|
                                spec_in_footprint(hwi, hhi, si, ci, a, b) && (a < x || (a == x && b
                                    < y)) ==> fp@.contains(GridVec { x: a as i32, y: b as i32 }),
                        decreases y_hi + 1 - y,
                    {
                        let ghost fp_old = fp@;
                        let hit = cell_overlaps_exec(hw, hh, s, c, x as i64, y as i64);
                        if hit {
                            fp.push(GridVec { x, y });
                        }
                        proof {
                            if hit {
                                assert forall|i: int, j: int| 0 <= i < j < fp@.len() implies
                                    spec_lex_lt(fp@[i], fp@[j]) by {
                                    if j == fp@.len() - 1 {
                                        if i < fp_old.len() - 1 {
                                            assert(spec_lex_lt(fp_old[i], fp_old[fp_old.len() - 1]));
                                        }
                                    }
                                }
                            }
                            assert forall|v: GridVec| fp_old.contains(v) implies fp@.contains(v) by {
                                let i = choose|i: int| 0 <= i < fp_old.len() && fp_old[i] == v;
                                assert(fp@[i] == v);
                            }
                            assert forall|a: int, b: int|
                                spec_in_footprint(hwi, hhi, si, ci, a, b) && (a < x || (a == x && b
                                    < y + 1)) implies fp@.contains(
                                GridVec { x: a as i32, y: b as i32 },
                            ) by {
                                if a == x && b == y {
                                    assert(spec_cell_overlaps(hwi, hhi, si, ci, a, b));
                                    assert(hit);
                                    assert(fp@[fp@.len() - 1] == GridVec {
                                        x: a as i32,
                                        y: b as i32,
                                    });
                                } else {
                                    assert(fp_old.contains(GridVec { x: a as i32, y: b as i32 }));
                                }
                            }
                        }
                        y += 1;
                    }
                    x += 1;
                }
            }
            proof {
                assert(spec_footprint_list_ok_raw(hwi, hhi, n as int, h as int, fp@));
            }
            footprints_cache.push(fp);
            h += 1;
        }
        let agent = Agent {
            position,
            size_x_milli,
            size_y_milli,
            rotation,
            max_increments,
            footprints_cache,
        };
        proof {
            assert(agent.spec_half_w() == hw as int);
            assert(agent.spec_half_h() == hh as int);
            assert forall|h2: int| 0 <= h2 < max_increments implies agent.spec_footprint_list_ok(
                h2,
                (#[trigger] agent.footprints_cache@[h2])@,
            ) by {
                let v = agent.footprints_cache@[h2]@;
                let si2 = spec_sin_fp(h2, max_increments as int);
                let ci2 = spec_cos_fp(h2, max_increments as int);
                assert(spec_footprint_list_ok_raw(
                    hw as int,
                    hh as int,
                    max_increments as int,
                    h2,
                    v,
                ));
                assert forall|i: int| 0 <= i < v.len() implies agent.spec_in_rotation_footprint(
                    h2,
                    (#[trigger] v[i]).x as int,
                    v[i].y as int,
                ) by {
                    assert(spec_in_footprint(
                        hw as int,
                        hh as int,
                        si2,
                        ci2,
                        v[i].x as int,
                        v[i].y as int,
                    ));
                }
                assert forall|x: int, y: int|
                    agent.spec_in_rotation_footprint(h2, x, y) implies v.contains(
                    GridVec { x: x as i32, y: y as i32 },
                ) by {
                    assert(spec_in_footprint(hw as int, hh as int, si2, ci2, x, y));
                }
                assert forall|x: int, y: int|
                    agent.spec_in_rotation_footprint(h2, x, y) implies -4095 <= x <= 4095 && -4095
                    <= y <= 4095 by {
                    crate::trig::lemma_sin_cos_fp_bounds(h2, max_increments as int);
                    lemma_box_bounds(hw as int, hh as int, si2, ci2);
                    assert(spec_in_footprint(hw as int, hh as int, si2, ci2, x, y));
                }
            }
        }
        agent
    }

    /// The cached footprint of a heading: exactly the cells the rotated
    /// rectangle covers, as offsets from the agent's centre cell, in
    /// lexicographic order.
    pub fn rotation_footprint(&self, rotation: i16) -> (v: &Vec<GridVec>)
        requires
            self.wf(),
            0 <= rotation < self.max_increments,
        ensures
            v@ == self.footprints_cache@[rotation as int]@,
            self.spec_footprint_list_ok(rotation as int, v@),
    {
        &self.footprints_cache[rotation as usize]
    }

    /// The footprint of a heading translated to `position`.
    pub fn footprint(&self, position: GridVec, rotation: i16) -> (v: Vec<GridVec>)
        requires
            self.wf(),
            0 <= rotation < self.max_increments,
            -1000000000 <= position.x <= 1000000000,
            -1000000000 <= position.y <= 1000000000,
        ensures
            v@.len() == self.footprints_cache@[rotation as int]@.len(),
            forall|i: int|
                0 <= i < v@.len() ==> #[trigger] v@[i] == (GridVec {
                    x: (self.footprints_cache@[rotation as int]@[i].x + position.x) as i32,
                    y: (self.footprints_cache@[rotation as int]@[i].y + position.y) as i32,
                }),
    {
        let base = &self.footprints_cache[rotation as usize];
        let mut v: Vec<GridVec> = Vec::new();
        let mut i: usize = 0;
        while i < base.len()
            invariant
                i <= base@.len(),
                v@.len() == i,
                base@ == self.footprints_cache@[rotation as int]@,
                self.spec_footprint_list_ok(rotation as int, base@),
                -1000000000 <= position.x <= 1000000000,
                -1000000000 <= position.y <= 1000000000,
                forall|j: int|
                    0 <= j < i ==> #[trigger] v@[j] == (GridVec {
                        x: (base@[j].x + position.x) as i32,
                        y: (base@[j].y + position.y) as i32,
                    }),
            decreases base@.len() - i,
        {
            let o = base[i];
            v.push(GridVec { x: o.x + position.x, y: o.y + position.y });
            i += 1;
        }
        v
    }

    /// Every footprint contains the offset `(0, 0)`: the cell under the
    /// agent's centre is always covered, so no cached footprint list is
    /// empty.
    pub proof fn lemma_footprint_origin(&self, h: int)
        requires
            self.wf(),
            0 <= h < self.max_increments,
        ensures
            self.spec_in_rotation_footprint(h, 0, 0),
            self.footprints_cache@[h]@.contains(GridVec { x: 0, y: 0 }),
            self.footprints_cache@[h]@.len() >= 1,
    {
        let n = self.max_increments as int;
        let hw = self.spec_half_w();
        let hh = self.spec_half_h();
        lemma_half_extent_bounds(self.size_x_milli as int);
        lemma_half_extent_bounds(self.size_y_milli as int);
        crate::trig::lemma_sin_cos_fp_bounds(h, n);
        crate::trig::lemma_sin_cos_fp_nonzero(h, n);
        let s = spec_sin_fp(h, n);
        let c = spec_cos_fp(h, n);
        lemma_origin_in_footprint(hw, hh, s, c);
        let v = self.footprints_cache@[h]@;
        assert(self.spec_footprint_list_ok(h, v));
        assert(self.spec_in_rotation_footprint(h, 0, 0));
        assert(v.contains(GridVec { x: 0 as i32, y: 0 as i32 }));
    }

    /// An agent smaller than one cell on both sides covers, at the
    /// identity heading, exactly the cell it stands on: the cached list
    /// is the single offset `(0, 0)`.
    pub proof fn lemma_footprint_single_cell(&self)
        requires
            self.wf(),
            self.size_x_milli < 1000,
            self.size_y_milli < 1000,
        ensures
            self.footprints_cache@[0]@ == seq![GridVec { x: 0, y: 0 }],
    {
        let n = self.max_increments as int;
        let hw = self.spec_half_w();
        let hh = self.spec_half_h();
        lemma_half_extent_bounds(self.size_x_milli as int);
        lemma_half_extent_bounds(self.size_y_milli as int);
        assert(hw <= 499 && hh <= 499) by {
            vstd::arithmetic::div_mod::lemma_div_is_ordered(
                self.size_x_milli as int,
                999,
                2,
            );
            vstd::arithmetic::div_mod::lemma_div_is_ordered(
                self.size_y_milli as int,
                999,
                2,
            );
            vstd::arithmetic::div_mod::lemma_fundamental_div_mod_converse(999, 2, 499, 1);
        }
        crate::trig::lemma_sin_cos_fp_zero(n);
        assert forall|x: int, y: int| self.spec_in_rotation_footprint(0, x, y) == (x == 0 && y
            == 0) by {
            lemma_identity_box(hw, hh);
            lemma_overlap_identity(hw, hh, x, y);
            if x == 0 && y == 0 {
                assert(spec_in_footprint(hw, hh, 0, 65536, 0, 0));
            }
            if spec_in_footprint(hw, hh, 0, 65536, x, y) {
                assert(0 <= x <= 1 && 0 <= y <= 1);
                assert(x == 0 && y == 0);
            }
        }
        let v = self.footprints_cache@[0]@;
        assert(self.spec_footprint_list_ok(0, v));
        let origin = GridVec { x: 0, y: 0 };
        assert(self.spec_in_rotation_footprint(0, 0, 0));
        assert(v.contains(GridVec { x: 0 as i32, y: 0 as i32 }));
        assert forall|i: int| 0 <= i < v.len() implies v[i] == origin by {
            assert(self.spec_in_rotation_footprint(0, v[i].x as int, v[i].y as int));
        }
        if v.len() >= 2 {
            assert(spec_lex_lt(v[0], v[1]));
            assert(false);
        }
        assert(v =~= seq![origin]);
    }

    /// An agent of three quarter-cells of half-extent covers, at the
    /// identity heading, exactly the two-by-two block of cells around
    /// its centre corner, in lexicographic order.
    pub proof fn lemma_footprint_two_by_two(&self)
        requires
            self.wf(),
            self.size_x_milli == 1500,
            self.size_y_milli == 1500,
        ensures
            self.footprints_cache@[0]@ == seq![
                GridVec { x: 0, y: 0 },
                GridVec { x: 0, y: 1 },
                GridVec { x: 1, y: 0 },
                GridVec { x: 1, y: 1 },
            ],
    {
        let n = self.max_increments as int;
        let hw = self.spec_half_w();
        let hh = self.spec_half_h();
        assert(hw == 750 && hh == 750) by {
            vstd::arithmetic::div_mod::lemma_fundamental_div_mod_converse(1500, 2, 750, 0);
        }
        crate::trig::lemma_sin_cos_fp_zero(n);
        assert forall|x: int, y: int| self.spec_in_rotation_footprint(0, x, y) == (0 <= x <= 1 && 0
            <= y <= 1) by {
            lemma_identity_box(hw, hh);
            lemma_overlap_identity(hw, hh, x, y);
            if 0 <= x <= 1 && 0 <= y <= 1 {
                assert(spec_in_footprint(hw, hh, 0, 65536, x, y));
            }
        }
        let v = self.footprints_cache@[0]@;
        assert(self.spec_footprint_list_ok(0, v));
        let c00 = GridVec { x: 0, y: 0 };
        let c01 = GridVec { x: 0, y: 1 };
        let c10 = GridVec { x: 1, y: 0 };
        let c11 = GridVec { x: 1, y: 1 };
        assert(self.spec_in_rotation_footprint(0, 0, 0));
        assert(self.spec_in_rotation_footprint(0, 0, 1));
        assert(self.spec_in_rotation_footprint(0, 1, 0));
        assert(self.spec_in_rotation_footprint(0, 1, 1));
        assert(v.contains(GridVec { x: 0 as i32, y: 0 as i32 }));
        assert(v.contains(GridVec { x: 0 as i32, y: 1 as i32 }));
        assert(v.contains(GridVec { x: 1 as i32, y: 0 as i32 }));
        assert(v.contains(GridVec { x: 1 as i32, y: 1 as i32 }));
        assert forall|i: int| 0 <= i < v.len() implies (v[i] == c00 || v[i] == c01 || v[i] == c10
            || v[i] == c11) by {
            assert(self.spec_in_rotation_footprint(0, v[i].x as int, v[i].y as int));
        }
        let i00 = choose|i: int| 0 <= i < v.len() && v[i] == c00;
        let i01 = choose|i: int| 0 <= i < v.len() && v[i] == c01;
        let i10 = choose|i: int| 0 <= i < v.len() && v[i] == c10;
        let i11 = choose|i: int| 0 <= i < v.len() && v[i] == c11;
        assert(i00 == 0) by {
            if i00 > 0 {
                assert(spec_lex_lt(v[0], v[i00]));
            }
        }
        assert(i01 == 1) by {
            assert(i00 < i01) by {
                if i01 < i00 {
                    assert(spec_lex_lt(v[i01], v[i00]));
                }
            }
            if i01 > 1 {
                assert(spec_lex_lt(v[1], v[i01]));
                assert(spec_lex_lt(v[0], v[1]));
            }
        }
        assert(i10 == 2) by {
            assert(i01 < i10) by {
                if i10 < i01 {
                    assert(spec_lex_lt(v[i10], v[i01]));
                }
                if i10 == i01 {
                    assert(v[i10] == c01);
                }
            }
            if i10 > 2 {
                assert(spec_lex_lt(v[2], v[i10]));
                assert(spec_lex_lt(v[1], v[2]));
            }
        }
        assert(i11 == 3) by {
            assert(i10 < i11) by {
                if i11 < i10 {
                    assert(spec_lex_lt(v[i11], v[i10]));
                }
                if i11 == i10 {
                    assert(v[i11] == c10);
                }
            }
            if i11 > 3 {
                assert(spec_lex_lt(v[3], v[i11]));
                assert(spec_lex_lt(v[2], v[3]));
            }
        }
        assert(v.len() == 4) by {
            if v.len() >= 5 {
                assert(spec_lex_lt(v[3], v[4]));
            }
        }
        assert(v =~= seq![c00, c01, c10, c11]);
    }

    /// The footprint at the agent's own pose.
    pub fn current_footprint(&self) -> (v: Vec<GridVec>)
        requires
            self.wf(),
            -1000000000 <= self.position.x <= 1000000000,
            -1000000000 <= self.position.y <= 1000000000,
        ensures
            v@.len() == self.footprints_cache@[self.rotation as int]@.len(),
            forall|i: int|
                0 <= i < v@.len() ==> #[trigger] v@[i] == (GridVec {
                    x: (self.footprints_cache@[self.rotation as int]@[i].x + self.position.x) as i32,
                    y: (self.footprints_cache@[self.rotation as int]@[i].y + self.position.y) as i32,
                }),
    {
        self.footprint(self.position, self.rotation)
    }
}

} // verus!
