//! Row-major indexing of a grid of cells.

use vstd::prelude::*;

verus! {

/// The index of cell `(x, y)` in a row-major grid that is `width` cells wide.
pub open spec fn cell_index(width: int, x: int, y: int) -> int {
    y * width + x
}

/// A cell of the grid has an index below the number of cells.
pub proof fn lemma_cell_index_in_range(width: int, height: int, x: int, y: int)
    requires
        0 <= x < width,
        0 <= y < height,
    ensures
        0 <= cell_index(width, x, y) < width * height,
        0 <= y * width,
{
    assert(0 <= y * width && y * width + width <= height * width && height * width == width
        * height) by (nonlinear_arith)
        requires
            0 <= x < width,
            0 <= y < height,
    ;
}

/// Two cells with the same index are the same cell.
pub proof fn lemma_cell_index_injective(width: int, x: int, y: int, u: int, v: int)
    requires
        0 <= x < width,
        0 <= u < width,
        cell_index(width, x, y) == cell_index(width, u, v),
    ensures
        x == u,
        y == v,
{
    assert(y == v) by (nonlinear_arith)
        requires
            0 <= x < width,
            0 <= u < width,
            y * width + x == v * width + u,
    ;
}

/// The column and row of a cell come back from its index by remainder and
/// quotient.
pub proof fn lemma_cell_index_split(width: int, x: int, y: int)
    requires
        0 <= x < width,
        0 <= y,
    ensures
        cell_index(width, x, y) / width == y,
        cell_index(width, x, y) % width == x,
{
    vstd::arithmetic::div_mod::lemma_fundamental_div_mod_converse(
        cell_index(width, x, y),
        width,
        y,
        x,
    );
}

/// The product of two extents grows with each of them.
pub proof fn lemma_area_grows(a: int, b: int, c: int, d: int)
    requires
        0 <= a <= c,
        0 <= b <= d,
    ensures
        0 <= a * b <= c * d,
{
    assert(0 <= a * b <= c * d) by (nonlinear_arith)
        requires
            0 <= a <= c,
            0 <= b <= d,
    ;
}

} // verus!
