//! Grid coordinates and extents.

use vstd::prelude::*;

verus! {

/// A grid coordinate: `row` and `col` are zero-based.
///
/// Also used for shape-relative offsets, which are stored normalized to
/// non-negative values (see [`crate::tetra::Tetra`]).
#[derive(Clone, Copy, PartialEq, Eq, Structural, Hash, Debug)]
pub struct Pos {
    pub row: usize,
    pub col: usize,
}

impl Pos {
    pub fn new(row: usize, col: usize) -> (p: Self)
        ensures
            p.row == row,
            p.col == col,
    {
        Self { row, col }
    }
}

/// Extents of a grid or of a shape's bounding box.
#[derive(Clone, Copy, PartialEq, Eq, Structural, Hash, Debug)]
pub struct Size {
    pub rows: usize,
    pub cols: usize,
}

impl Size {
    pub fn new(rows: usize, cols: usize) -> (s: Self)
        ensures
            s.rows == rows,
            s.cols == cols,
    {
        Self { rows, cols }
    }
}

/// Types that can report their extents as a [`Size`].
pub trait SizeOf {
    fn size_of(&self) -> Size;
}

/// Cell containers addressable by a [`Pos`], for positions the container
/// declares in bounds.
pub trait PosInGrid<T> {
    /// Whether `pos` can be read from this container.
    spec fn pos_in_bounds(&self, pos: Pos) -> bool;

    /// The value stored at `pos`.
    spec fn pos_value(&self, pos: Pos) -> T;

    fn pos(&self, pos: &Pos) -> (r: T)
        requires
            self.pos_in_bounds(*pos),
        ensures
            r == self.pos_value(*pos),
    ;
}

} // verus!
