//! The occupancy grid: a fixed width x height map of blocked/free cells,
//! bit-packed, with every out-of-range coordinate reported as blocked.

use vstd::prelude::*;

use crate::bitarray::BitArray;

verus! {

use vstd::arithmetic::div_mod::{lemma_fundamental_div_mod, lemma_mod_division_less_than_divisor};

/// An integer 2D coordinate: a grid cell, or an offset between cells.
#[derive(Clone, Copy, Debug, PartialEq, Eq, Structural)]
pub struct GridVec {
    pub x: i32,
    pub y: i32,
}

impl GridVec {
    pub fn new(x: i32, y: i32) -> (r: GridVec)
        ensures
            r.x == x,
            r.y == y,
    {
        GridVec { x, y }
    }
}

/// Row-major cell indexing is injective on in-range coordinates.
proof fn lemma_row_major_injective(w: int, ax: int, ay: int, bx: int, by: int)
    requires
        0 < w,
        0 <= ax < w,
        0 <= bx < w,
        ay * w + ax == by * w + bx,
    ensures
        ax == bx,
        ay == by,
{
    assert(ay == by && ax == bx) by (nonlinear_arith)
        requires
            0 < w,
            0 <= ax < w,
            0 <= bx < w,
            ay * w + ax == by * w + bx,
    ;
}

/// An in-range coordinate pair indexes inside the bit array.
proof fn lemma_row_major_in_range(w: int, h: int, x: int, y: int)
    requires
        0 < w,
        0 < h,
        0 <= x < w,
        0 <= y < h,
    ensures
        0 <= y * w + x < h * w,
{
    assert(0 <= y * w + x < h * w) by (nonlinear_arith)
        requires
            0 < w,
            0 <= x < w,
            0 <= y < h,
    ;
}

/// A rectangular occupancy map.
///
/// Cells inside `[0, width) x [0, height)` carry one blocked/free bit each;
/// every coordinate outside that rectangle reads as blocked. The search
/// only reads the grid; the caller mutates it between queries through
/// [`Grid::toggle_cell`].
pub struct Grid {
    size: (i32, i32),
    cells: BitArray,
}

impl Grid {
    /// Dimensions are positive, the bit array holds exactly one bit per
    /// cell, and the cell count fits the index arithmetic.
    pub closed spec fn wf(&self) -> bool {
        &&& 0 < self.size.0
        &&& 0 < self.size.1
        &&& self.size.0 * self.size.1 <= i32::MAX
        &&& self.cells.wf()
        &&& self.cells@.len() == self.size.0 * self.size.1
    }

    pub closed spec fn spec_width(&self) -> int {
        self.size.0 as int
    }

    pub closed spec fn spec_height(&self) -> int {
        self.size.1 as int
    }

    /// Whether `(x, y)` is inside the grid rectangle.
    pub open spec fn spec_in_bounds(&self, x: int, y: int) -> bool {
        0 <= x < self.spec_width() && 0 <= y < self.spec_height()
    }

    /// The abstract occupancy relation: out-of-range coordinates are
    /// blocked, in-range coordinates read their bit.
    pub closed spec fn spec_blocked(&self, x: int, y: int) -> bool {
        !self.spec_in_bounds(x, y) || self.cells@[y * self.spec_width() + x]
    }

    /// Creates a grid of `width x height` cells, all free.
    pub fn new(width: i32, height: i32) -> (r: Grid)
        requires
            0 < width,
            0 < height,
            width * height <= i32::MAX,
        ensures
            r.wf(),
            r.spec_width() == width,
            r.spec_height() == height,
            forall|x: int, y: int| r.spec_in_bounds(x, y) ==> !r.spec_blocked(x, y),
    {
        proof {
            assert(0 < width * height) by (nonlinear_arith)
                requires
                    0 < width,
                    0 < height,
            ;
        }
        let n: usize = (width * height) as usize;
        let cells = BitArray::new(n);
        let r = Grid { size: (width, height), cells };
        assert forall|x: int, y: int| r.spec_in_bounds(x, y) implies !r.spec_blocked(x, y) by {
            lemma_row_major_in_range(width as int, height as int, x, y);
            assert(height * width == width * height) by (nonlinear_arith);
        }
        r
    }

    /// The grid width in cells.
    pub fn width(&self) -> (r: i32)
        ensures
            r == self.spec_width(),
    {
        self.size.0
    }

    /// The grid height in cells.
    pub fn height(&self) -> (r: i32)
        ensures
            r == self.spec_height(),
    {
        self.size.1
    }

    /// The row-major bit index of an in-range cell.
    pub fn index(&self, x: i32, y: i32) -> (r: usize)
        requires
            self.wf(),
            self.spec_in_bounds(x as int, y as int),
        ensures
            r == y * self.spec_width() + x,
    {
        proof {
            lemma_row_major_in_range(self.size.0 as int, self.size.1 as int, x as int, y as int);
            assert(self.size.1 * self.size.0 == self.size.0 * self.size.1) by (nonlinear_arith);
        }
        (y * self.size.0 + x) as usize
    }

    /// The coordinates of a row-major bit index.
    pub fn xy(&self, index: usize) -> (r: (i32, i32))
        requires
            self.wf(),
            index < self.spec_width() * self.spec_height(),
        ensures
            r.0 == index as int % self.spec_width(),
            r.1 == index as int / self.spec_width(),
            self.spec_in_bounds(r.0 as int, r.1 as int),
            r.1 * self.spec_width() + r.0 == index,
    {
        let w = self.size.0;
        proof {
            let wi = w as int;
            let hi = self.spec_height();
            let ii = index as int;
            lemma_fundamental_div_mod(ii, wi);
            lemma_mod_division_less_than_divisor(ii, wi);
            assert(0 <= ii / wi < hi) by (nonlinear_arith)
                requires
                    0 < wi,
                    0 < hi,
                    0 <= ii < wi * hi,
                    wi * (ii / wi) + ii % wi == ii,
                    0 <= ii % wi < wi,
            ;
            assert((ii / wi) * wi == wi * (ii / wi)) by (nonlinear_arith);
        }
        let x = (index as i32) % w;
        let y = (index as i32) / w;
        (x, y)
    }

    /// True when `(x, y)` lies outside the grid or its bit is set.
    pub fn is_cell_blocked(&self, x: i32, y: i32) -> (r: bool)
        requires
            self.wf(),
        ensures
            r == self.spec_blocked(x as int, y as int),
            !r ==> self.spec_in_bounds(x as int, y as int),
    {
        if x < 0 || x >= self.size.0 || y < 0 || y >= self.size.1 {
            return true;
        }
        proof {
            lemma_row_major_in_range(self.size.0 as int, self.size.1 as int, x as int, y as int);
        }
        let i = self.index(x, y);
        self.cells.get_bool(i)
    }

    /// Flips the blocked bit of an in-range cell; all other cells and the
    /// dimensions are unchanged.
    pub fn toggle_cell(&mut self, x: i32, y: i32)
        requires
            old(self).wf(),
            old(self).spec_in_bounds(x as int, y as int),
        ensures
            final(self).wf(),
            final(self).spec_width() == old(self).spec_width(),
            final(self).spec_height() == old(self).spec_height(),
            final(self).spec_blocked(x as int, y as int) == !old(self).spec_blocked(
                x as int,
                y as int,
            ),
            forall|a: int, b: int|
                !(a == x && b == y) ==> final(self).spec_blocked(a, b) == old(self).spec_blocked(
                    a,
                    b,
                ),
    {
        proof {
            lemma_row_major_in_range(self.size.0 as int, self.size.1 as int, x as int, y as int);
        }
        let i = self.index(x, y);
        let existing = self.cells.get_bool(i);
        self.cells.set_bool(i, !existing);
        assert forall|a: int, b: int| !(a == x && b == y) implies self.spec_blocked(a, b) == old(
            self,
        ).spec_blocked(a, b) by {
            if old(self).spec_in_bounds(a, b) {
                lemma_row_major_in_range(self.size.0 as int, self.size.1 as int, a, b);
                if b * self.spec_width() + a == y * self.spec_width() + x {
                    lemma_row_major_injective(self.spec_width(), a, b, x as int, y as int);
                }
            }
        }
    }
}

} // verus!
