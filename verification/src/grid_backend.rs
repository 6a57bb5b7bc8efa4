//! Trusted interface to the `grid` crate, which stores the search's cell
//! matrix. The contents of a grid are modelled by [`grid_cells`], row by row.

use vstd::prelude::*;

verus! {

#[verifier::external_type_specification]
#[verifier::external_body]
#[verifier::reject_recursive_types(T)]
pub struct ExGrid<T>(grid::Grid<T>);

/// What a grid of cell codes holds: one sequence per row, in row order.
pub uninterp spec fn grid_cells(g: grid::Grid<u8>) -> Seq<Seq<u8>>;

/// Relies on `grid::Grid::init`: a `rows` x `cols` grid in row-major order,
/// every cell holding `fill`.
#[verifier::external_body]
pub(crate) fn grid_init(rows: usize, cols: usize, fill: u8) -> (g: grid::Grid<u8>)
    requires
        1 <= rows,
        1 <= cols,
        rows * cols <= usize::MAX,
    ensures
        grid_cells(g).len() == rows,
        forall|r: int| 0 <= r < rows ==> (#[trigger] grid_cells(g)[r]).len() == cols,
        forall|r: int, c: int|
            0 <= r < rows && 0 <= c < cols ==> #[trigger] grid_cells(g)[r][c] == fill,
{
    grid::Grid::init(rows, cols, fill)
}

/// Relies on `grid::Grid`'s `Index` impl: an in-bounds access returns the
/// stored value.
#[verifier::external_body]
pub(crate) fn grid_get(g: &grid::Grid<u8>, row: usize, col: usize) -> (v: u8)
    requires
        row < grid_cells(*g).len(),
        col < grid_cells(*g)[row as int].len(),
    ensures
        v == grid_cells(*g)[row as int][col as int],
{
    g[(row, col)]
}

/// Relies on `grid::Grid`'s `IndexMut` impl: writes one in-bounds cell in
/// place and leaves every other cell unchanged.
#[verifier::external_body]
pub(crate) fn grid_set(g: &mut grid::Grid<u8>, row: usize, col: usize, v: u8)
    requires
        row < grid_cells(*old(g)).len(),
        col < grid_cells(*old(g))[row as int].len(),
    ensures
        grid_cells(*final(g)) == grid_cells(*old(g)).update(
            row as int,
            grid_cells(*old(g))[row as int].update(col as int, v),
        ),
{
    g[(row, col)] = v;
}

} // verus!
