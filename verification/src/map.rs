//! Addressing the cells of a row-major map.

use vstd::prelude::*;
use crate::geometry::Point;

verus! {

/// Anything laid out as rows of `dimensions().x` cells.
pub trait GridMap {
    /// The width and the height, for use in contracts.
    spec fn extents(&self) -> Point;

    /// The width and the height.
    fn dimensions(&self) -> (dims: Point)
        ensures
            dims == self.extents(),
    ;

    /// The array position of a cell: `y * width + x`.
    fn xy_idx(&self, pos: Point) -> (idx: usize)
        requires
            0 <= pos.y * self.extents().x + pos.x <= usize::MAX,
        ensures
            idx == pos.y * self.extents().x + pos.x,
    {
        let width = self.dimensions().x;
        assert(-0x4000_0000_0000_0000 <= pos.y * width <= 0x4000_0000_0000_0000)
            by (nonlinear_arith)
            requires
                -0x8000_0000 <= pos.y <= 0x7fff_ffff,
                -0x8000_0000 <= width <= 0x7fff_ffff,
        ;
        (((pos.y as i64) * (width as i64)) + (pos.x as i64)) as usize
    }

    /// The cell at an array position: column `idx % width`, row `idx / width`.
    fn idx_xy(&self, idx: usize) -> (pos: Point)
        requires
            0 < self.extents().x,
            idx <= i32::MAX,
        ensures
            pos.x == idx % (self.extents().x as usize),
            pos.y == idx / (self.extents().x as usize),
    {
        let width = self.dimensions().x;
        let x = (idx as i32) % width;
        let y = (idx as i32) / width;
        Point { x, y }
    }
}

/// Within a map's columns, a cell's array position leads back to the cell.
pub proof fn lemma_index_round_trip(width: int, x: int, y: int)
    requires
        0 <= x < width,
        0 <= y,
    ensures
        (y * width + x) % width == x,
        (y * width + x) / width == y,
{
    vstd::arithmetic::div_mod::lemma_fundamental_div_mod_converse(y * width + x, width, y, x);
}

/// An array position is the position of the cell that it leads to.
pub proof fn lemma_cell_round_trip(width: int, idx: int)
    requires
        0 < width,
        0 <= idx,
    ensures
        (idx / width) * width + (idx % width) == idx,
        0 <= idx % width < width,
{
    vstd::arithmetic::div_mod::lemma_fundamental_div_mod(idx, width);
    assert((idx / width) * width == width * (idx / width)) by (nonlinear_arith);
}

} // verus!
