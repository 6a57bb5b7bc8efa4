//! The shape catalog: tetromino orientations and placement validation.
//!
//! A [`Tetra`] stores four relative offsets from an anchor, normalized to
//! non-negative coordinates; `col_shift` records how far the shape extends to
//! the left of its anchor column. The fixed catalog of 19 orientations covers
//! all rotations and reflections of the seven tetromino forms, with
//! duplicates removed.

use vstd::prelude::*;

verus! {

use crate::util::{Pos, Size};

/// Mathematical model of a [`Tetra`]: its offsets, bounding box and shift.
pub struct TetraShape {
    pub offsets: Seq<Pos>,
    pub rows: int,
    pub cols: int,
    pub shift: int,
}

/// Well-formedness of a shape: exactly four distinct offsets, all inside the
/// bounding box, which is tight and at most 4 in each direction, and a left
/// shift that stays inside the bounding box.
pub open spec fn shape_wf(t: TetraShape) -> bool {
    &&& t.offsets.len() == 4
    &&& forall|i: int|
        0 <= i < 4 ==> t.offsets[i].row < t.rows && t.offsets[i].col < t.cols
    &&& forall|i: int, j: int|
        0 <= i < 4 && 0 <= j < 4 && i != j ==> t.offsets[i] != t.offsets[j]
    &&& 1 <= t.rows <= 4
    &&& 1 <= t.cols <= 4
    &&& 0 <= t.shift < t.cols
}

/// A tetromino orientation: four offsets, a bounding box, and the number of
/// columns the shape extends to the left of its anchor column.
#[derive(Clone, Copy, Debug)]
pub struct Tetra {
    positions: [Pos; 4],
    size: Size,
    col_shift: usize,
}

impl View for Tetra {
    type V = TetraShape;

    closed spec fn view(&self) -> TetraShape {
        TetraShape {
            offsets: self.positions@,
            rows: self.size.rows as int,
            cols: self.size.cols as int,
            shift: self.col_shift as int,
        }
    }
}

impl Tetra {
    pub open spec fn wf(self) -> bool {
        shape_wf(self@)
    }

    /// The shape's bounding box.
    pub fn size(&self) -> (s: &Size)
        ensures
            s.rows == self@.rows,
            s.cols == self@.cols,
    {
        &self.size
    }

    /// The four relative offsets, in catalog order.
    pub fn iter(&self) -> (r: [Pos; 4])
        ensures
            r@ == self@.offsets,
    {
        self.positions
    }

    /// How many columns the shape extends left of its anchor column.
    pub fn col_shift(&self) -> (s: &usize)
        ensures
            *s == self@.shift,
    {
        &self.col_shift
    }

    /// Whether two catalog entries describe the same orientation.
    pub fn same_shape(&self, other: &Tetra) -> (r: bool)
        ensures
            r == (self@ == other@),
    {
        let r = self.positions[0] == other.positions[0]
            && self.positions[1] == other.positions[1]
            && self.positions[2] == other.positions[2]
            && self.positions[3] == other.positions[3]
            && self.size == other.size
            && self.col_shift == other.col_shift;
        proof {
            if r {
                assert(self@.offsets =~= other@.offsets);
                assert(self@ =~= other@);
            } else {
                assert(self@ != other@);
            }
        }
        r
    }
}

fn max_usize(a: usize, b: usize) -> (r: usize)
    ensures
        r == if a > b { a as int } else { b as int },
{
    if a > b {
        a
    } else {
        b
    }
}

/// Builds one catalog entry from its four offsets, deriving the tight
/// bounding box; `col_shift` is the shape's left overhang.
pub fn const_tetra(a: Pos, b: Pos, c: Pos, d: Pos, col_shift: usize) -> (t: Tetra)
    requires
        a.row <= 3 && a.col <= 3,
        b.row <= 3 && b.col <= 3,
        c.row <= 3 && c.col <= 3,
        d.row <= 3 && d.col <= 3,
        a != b && a != c && a != d && b != c && b != d && c != d,
        col_shift <= a.col || col_shift <= b.col || col_shift <= c.col || col_shift <= d.col,
    ensures
        t@.offsets =~= seq![a, b, c, d],
        t@.shift == col_shift,
        t@.rows == 1 + max_of_rows(a, b, c, d),
        t@.cols == 1 + max_of_cols(a, b, c, d),
        t.wf(),
{
    let max_row = max_usize(max_usize(a.row, b.row), max_usize(c.row, d.row));
    let max_col = max_usize(max_usize(a.col, b.col), max_usize(c.col, d.col));
    let t = Tetra {
        positions: [a, b, c, d],
        size: Size { rows: max_row + 1, cols: max_col + 1 },
        col_shift,
    };
    proof {
        assert(t@.offsets =~= seq![a, b, c, d]);
    }
    t
}

pub open spec fn max_of_rows(a: Pos, b: Pos, c: Pos, d: Pos) -> int {
    vstd::math::max(
        vstd::math::max(a.row as int, b.row as int),
        vstd::math::max(c.row as int, d.row as int),
    )
}

pub open spec fn max_of_cols(a: Pos, b: Pos, c: Pos, d: Pos) -> int {
    vstd::math::max(
        vstd::math::max(a.col as int, b.col as int),
        vstd::math::max(c.col as int, d.col as int),
    )
}

/// Number of orientations in the catalog.
pub const TETRAS_COUNT: usize = 19;

pub open spec fn sh(r0: int, c0: int, r1: int, c1: int, r2: int, c2: int, r3: int, c3: int, rows: int, cols: int, shift: int) -> TetraShape {
    TetraShape {
        offsets: seq![
            Pos { row: r0 as usize, col: c0 as usize },
            Pos { row: r1 as usize, col: c1 as usize },
            Pos { row: r2 as usize, col: c2 as usize },
            Pos { row: r3 as usize, col: c3 as usize },
        ],
        rows: rows,
        cols: cols,
        shift: shift,
    }
}

/// The fixed ordered catalog: every rotation and reflection of the seven
/// tetromino forms, with duplicate orientations removed.
pub open spec fn spec_catalog() -> Seq<TetraShape> {
    seq![
        sh(0, 0, 0, 1, 1, 0, 1, 1, 2, 2, 0),
        sh(0, 0, 0, 1, 0, 2, 0, 3, 1, 4, 0),
        sh(0, 0, 1, 0, 2, 0, 3, 0, 4, 1, 0),
        sh(0, 0, 0, 1, 0, 2, 1, 1, 2, 3, 0),
        sh(0, 0, 1, 0, 1, 1, 2, 0, 3, 2, 0),
        sh(0, 1, 1, 0, 1, 1, 1, 2, 2, 3, 1),
        sh(0, 1, 1, 0, 1, 1, 2, 1, 3, 2, 1),
        sh(0, 0, 0, 1, 0, 2, 1, 0, 2, 3, 0),
        sh(0, 0, 1, 0, 2, 0, 2, 1, 3, 2, 0),
        sh(0, 2, 1, 0, 1, 1, 1, 2, 2, 3, 2),
        sh(0, 0, 0, 1, 1, 1, 2, 1, 3, 2, 0),
        sh(0, 0, 0, 1, 0, 2, 1, 2, 2, 3, 0),
        sh(0, 1, 1, 1, 2, 0, 2, 1, 3, 2, 1),
        sh(0, 0, 1, 0, 1, 1, 1, 2, 2, 3, 0),
        sh(0, 0, 0, 1, 1, 0, 2, 0, 3, 2, 0),
        sh(0, 1, 0, 2, 1, 0, 1, 1, 2, 3, 1),
        sh(0, 0, 1, 0, 1, 1, 2, 1, 3, 2, 0),
        sh(0, 0, 0, 1, 1, 1, 1, 2, 2, 3, 0),
        sh(0, 1, 1, 0, 1, 1, 2, 0, 3, 2, 1),
    ]
}

fn push_tetra(v: &mut Vec<Tetra>, r0: usize, c0: usize, r1: usize, c1: usize, r2: usize, c2: usize, r3: usize, c3: usize, shift: usize)
    requires
        r0 <= 3 && c0 <= 3 && r1 <= 3 && c1 <= 3,
        r2 <= 3 && c2 <= 3 && r3 <= 3 && c3 <= 3,
        (r0, c0) != (r1, c1) && (r0, c0) != (r2, c2) && (r0, c0) != (r3, c3),
        (r1, c1) != (r2, c2) && (r1, c1) != (r3, c3) && (r2, c2) != (r3, c3),
        shift <= c0 || shift <= c1 || shift <= c2 || shift <= c3,
    ensures
        final(v)@.len() == old(v)@.len() + 1,
        final(v)@.subrange(0, old(v)@.len() as int) == old(v)@,
        final(v)@[old(v)@.len() as int].wf(),
        final(v)@[old(v)@.len() as int]@ == sh(
            r0 as int, c0 as int, r1 as int, c1 as int,
            r2 as int, c2 as int, r3 as int, c3 as int,
            1 + vstd::math::max(vstd::math::max(r0 as int, r1 as int), vstd::math::max(r2 as int, r3 as int)),
            1 + vstd::math::max(vstd::math::max(c0 as int, c1 as int), vstd::math::max(c2 as int, c3 as int)),
            shift as int,
        ),
{
    let t = const_tetra(
        Pos::new(r0, c0),
        Pos::new(r1, c1),
        Pos::new(r2, c2),
        Pos::new(r3, c3),
        shift,
    );
    proof {
        assert(t@.offsets =~= sh(
            r0 as int, c0 as int, r1 as int, c1 as int,
            r2 as int, c2 as int, r3 as int, c3 as int,
            t@.rows, t@.cols, shift as int,
        ).offsets);
    }
    v.push(t);
    proof {
        assert(final(v)@.subrange(0, old(v)@.len() as int) =~= old(v)@);
    }
}

/// The catalog as owned values, in catalog order.
pub fn static_tetras_iter() -> (r: Vec<Tetra>)
    ensures
        r@.len() == TETRAS_COUNT,
        forall|i: int| 0 <= i < TETRAS_COUNT ==> (#[trigger] r@[i])@ == spec_catalog()[i],
        forall|i: int| 0 <= i < TETRAS_COUNT ==> (#[trigger] r@[i]).wf(),
{
    let mut v: Vec<Tetra> = Vec::new();
    push_tetra(&mut v, 0, 0, 0, 1, 1, 0, 1, 1, 0);
    push_tetra(&mut v, 0, 0, 0, 1, 0, 2, 0, 3, 0);
    push_tetra(&mut v, 0, 0, 1, 0, 2, 0, 3, 0, 0);
    push_tetra(&mut v, 0, 0, 0, 1, 0, 2, 1, 1, 0);
    push_tetra(&mut v, 0, 0, 1, 0, 1, 1, 2, 0, 0);
    push_tetra(&mut v, 0, 1, 1, 0, 1, 1, 1, 2, 1);
    push_tetra(&mut v, 0, 1, 1, 0, 1, 1, 2, 1, 1);
    push_tetra(&mut v, 0, 0, 0, 1, 0, 2, 1, 0, 0);
    push_tetra(&mut v, 0, 0, 1, 0, 2, 0, 2, 1, 0);
    push_tetra(&mut v, 0, 2, 1, 0, 1, 1, 1, 2, 2);
    push_tetra(&mut v, 0, 0, 0, 1, 1, 1, 2, 1, 0);
    push_tetra(&mut v, 0, 0, 0, 1, 0, 2, 1, 2, 0);
    push_tetra(&mut v, 0, 1, 1, 1, 2, 0, 2, 1, 1);
    push_tetra(&mut v, 0, 0, 1, 0, 1, 1, 1, 2, 0);
    push_tetra(&mut v, 0, 0, 0, 1, 1, 0, 2, 0, 0);
    push_tetra(&mut v, 0, 1, 0, 2, 1, 0, 1, 1, 1);
    push_tetra(&mut v, 0, 0, 1, 0, 1, 1, 2, 1, 0);
    push_tetra(&mut v, 0, 0, 0, 1, 1, 1, 1, 2, 0);
    push_tetra(&mut v, 0, 1, 1, 0, 1, 1, 2, 0, 1);
    v
}

/// A shape together with the anchor it is placed at. Two placements are equal
/// iff they hold the same shape and the same anchor.
#[derive(Clone, Copy, Debug)]
pub struct PlacedTetra {
    pub tetra: Tetra,
    pub position: Pos,
}

impl PlacedTetra {
    pub fn new(tetra: Tetra, position: Pos) -> (p: Self)
        ensures
            p.tetra == tetra,
            p.position == position,
    {
        Self { tetra, position }
    }
}

/// Row of the `i`-th absolute cell a shape covers when placed at `anchor`.
pub open spec fn shape_cell_row(sh: TetraShape, anchor: Pos, i: int) -> int {
    anchor.row + sh.offsets[i].row
}

/// Column of the `i`-th absolute cell a shape covers when placed at
/// `anchor`.
pub open spec fn shape_cell_col(sh: TetraShape, anchor: Pos, i: int) -> int {
    anchor.col + sh.offsets[i].col - sh.shift
}

/// Bounds check at the shape level: the anchor column absorbs the left
/// overhang, and the bounding box, shifted left by the overhang, stays
/// inside `bounds`.
pub open spec fn shape_fits(sh: TetraShape, anchor: Pos, bounds: Size) -> bool {
    &&& sh.shift <= anchor.col
    &&& anchor.col + sh.cols - sh.shift <= bounds.cols
    &&& anchor.row + sh.rows <= bounds.rows
}

/// Row of the `i`-th absolute cell covered by a placement.
pub open spec fn placed_cell_row(pt: PlacedTetra, i: int) -> int {
    shape_cell_row(pt.tetra@, pt.position, i)
}

/// Column of the `i`-th absolute cell covered by a placement.
pub open spec fn placed_cell_col(pt: PlacedTetra, i: int) -> int {
    shape_cell_col(pt.tetra@, pt.position, i)
}

/// Bounds check that [`PlacedTetraInBoundaries::in_boundaries`] decides.
pub open spec fn spec_fits(pt: PlacedTetra, bounds: Size) -> bool {
    shape_fits(pt.tetra@, pt.position, bounds)
}

/// A placement that has been confirmed to lie fully inside some grid bounds.
/// Only such a placement can be materialized into absolute cells.
#[derive(Clone, Copy, Debug)]
pub struct PlacedTetraInBoundaries {
    placed: PlacedTetra,
}

impl PlacedTetraInBoundaries {
    /// The underlying placement.
    pub closed spec fn spec_placed(self) -> PlacedTetra {
        self.placed
    }

    /// Internal consistency: the shape is well-formed, the anchor absorbs the
    /// left overhang, and the absolute cells cannot overflow `usize`.
    pub open spec fn wf(self) -> bool {
        &&& shape_wf(self.spec_placed().tetra@)
        &&& self.spec_placed().tetra@.shift <= self.spec_placed().position.col
        &&& self.spec_placed().position.row + self.spec_placed().tetra@.rows <= usize::MAX
        &&& self.spec_placed().position.col + self.spec_placed().tetra@.cols
            - self.spec_placed().tetra@.shift <= usize::MAX
    }

    /// Row of this placement's `i`-th absolute cell.
    pub open spec fn cell_row(self, i: int) -> int {
        placed_cell_row(self.spec_placed(), i)
    }

    /// Column of this placement's `i`-th absolute cell.
    pub open spec fn cell_col(self, i: int) -> int {
        placed_cell_col(self.spec_placed(), i)
    }

    /// All four absolute cells lie inside `bounds`.
    pub open spec fn cells_within(self, bounds: Size) -> bool {
        forall|i: int|
            #![trigger self.cell_row(i)]
            #![trigger self.cell_col(i)]
            0 <= i < 4 ==> 0 <= self.cell_row(i) < bounds.rows && 0 <= self.cell_col(i)
                < bounds.cols
    }

    /// Validates a placement against grid bounds. Performs no grid-content
    /// check: emptiness of the covered cells is the caller's concern.
    pub fn in_boundaries(placed: PlacedTetra, boundaries: Size) -> (r: Option<Self>)
        requires
            placed.tetra.wf(),
        ensures
            r is Some <==> spec_fits(placed, boundaries),
            r matches Some(p) ==> p.spec_placed() == placed && p.wf() && p.cells_within(
                boundaries,
            ),
    {
        let tetra_size = placed.tetra.size();
        let size_rows = tetra_size.rows;
        let size_cols = tetra_size.cols;
        let tetra_col_shift = *placed.tetra.col_shift();
        let position = placed.position;

        if tetra_col_shift > position.col {
            return None;
        }
        if size_cols > boundaries.cols || position.col - tetra_col_shift > boundaries.cols
            - size_cols {
            return None;
        }
        if size_rows > boundaries.rows || position.row > boundaries.rows - size_rows {
            return None;
        }

        let p = Self { placed };
        proof {
            assert forall|i: int| 0 <= i < 4 implies 0 <= #[trigger] p.cell_row(i)
                < boundaries.rows && 0 <= #[trigger] p.cell_col(i) < boundaries.cols by {
                assert(placed.tetra@.offsets[i].row < placed.tetra@.rows);
                assert(placed.tetra@.offsets[i].col < placed.tetra@.cols);
            }
        }
        Some(p)
    }

    /// One absolute cell this placement covers, without materializing all
    /// four.
    pub fn covered_cell(&self, i: usize) -> (p: Pos)
        requires
            self.wf(),
            i < 4,
        ensures
            p.row == self.cell_row(i as int),
            p.col == self.cell_col(i as int),
    {
        let off = self.placed.tetra.positions[i];
        proof {
            assert(off.row < self.placed.tetra@.rows);
            assert(off.col < self.placed.tetra@.cols);
        }
        Pos {
            row: self.placed.position.row + off.row,
            col: self.placed.position.col - self.placed.tetra.col_shift + off.col,
        }
    }

    /// The four absolute cells this placement covers.
    pub fn iter_relative_to_place(&self) -> (r: Vec<Pos>)
        requires
            self.wf(),
        ensures
            r@.len() == 4,
            forall|i: int|
                0 <= i < 4 ==> (#[trigger] r@[i]).row == self.cell_row(i) && r@[i].col
                    == self.cell_col(i),
    {
        let tetra = &self.placed.tetra;
        let anchor = self.placed.position;
        let shift = tetra.col_shift;
        let offsets = tetra.positions;
        let mut r: Vec<Pos> = Vec::new();
        let mut i: usize = 0;
        while i < 4
            invariant
                0 <= i <= 4,
                self.wf(),
                shift == tetra.col_shift,
                offsets@ == tetra@.offsets,
                anchor == self.placed.position,
                *tetra == self.placed.tetra,
                r@.len() == i,
                forall|j: int|
                    0 <= j < i ==> (#[trigger] r@[j]).row == self.cell_row(j) && r@[j].col
                        == self.cell_col(j),
            decreases 4 - i,
        {
            let off = offsets[i];
            proof {
                assert(off.row < tetra@.rows);
                assert(off.col < tetra@.cols);
            }
            let row = anchor.row + off.row;
            let col = anchor.col - shift + off.col;
            r.push(Pos { row, col });
            i = i + 1;
        }
        r
    }

    /// The underlying placement, for consumers of accepted results.
    pub fn as_placed(&self) -> (r: &PlacedTetra)
        ensures
            *r == self.spec_placed(),
    {
        &self.placed
    }
}

/// Determinism law: bounds validation is a pure function of the placement
/// and the bounds. Any two outcomes that satisfy
/// [`PlacedTetraInBoundaries::in_boundaries`]'s contract for the same inputs
/// are equal, so calling it twice with identical arguments yields equal
/// results.
pub proof fn lemma_in_boundaries_deterministic(
    placed: PlacedTetra,
    boundaries: Size,
    r1: Option<PlacedTetraInBoundaries>,
    r2: Option<PlacedTetraInBoundaries>,
)
    requires
        r1 is Some <==> spec_fits(placed, boundaries),
        r1 matches Some(p) ==> p.spec_placed() == placed,
        r2 is Some <==> spec_fits(placed, boundaries),
        r2 matches Some(p) ==> p.spec_placed() == placed,
    ensures
        r1 == r2,
{
    if spec_fits(placed, boundaries) {
        let p1 = r1->Some_0;
        let p2 = r2->Some_0;
        assert(p1 == p2);
    }
}

/// Boundary law: a shape whose left overhang is `s` is rejected at any
/// anchor column below `s`, and accepted at column exactly `s` whenever the
/// shape otherwise fits the grid.
pub proof fn lemma_boundary_shift(t: Tetra, anchor: Pos, bounds: Size)
    requires
        shape_wf(t@),
    ensures
        anchor.col < t@.shift ==> !spec_fits((PlacedTetra { tetra: t, position: anchor }), bounds),
        anchor.col == t@.shift && t@.cols <= bounds.cols && anchor.row + t@.rows <= bounds.rows
            ==> spec_fits((PlacedTetra { tetra: t, position: anchor }), bounds),
{
}

/// Every catalog orientation lists the anchor's own cell first: its first
/// offset is row 0 at column `shift`, so a placement always covers its
/// anchor.
pub proof fn lemma_catalog_anchor_offset()
    ensures
        forall|k: int|
            0 <= k < TETRAS_COUNT ==> (#[trigger] spec_catalog()[k]).offsets[0].row == 0
                && spec_catalog()[k].offsets[0].col == spec_catalog()[k].shift,
{
    assert forall|k: int|
        0 <= k < TETRAS_COUNT implies (#[trigger] spec_catalog()[k]).offsets[0].row == 0
        && spec_catalog()[k].offsets[0].col == spec_catalog()[k].shift by {
        assert(spec_catalog().len() == 19);
    }
}

/// Distinct offsets land on distinct absolute cells: a well-formed placement
/// covers four pairwise distinct cells.
pub proof fn lemma_covered_distinct(pt: PlacedTetra, i: int, j: int)
    requires
        shape_wf(pt.tetra@),
        0 <= i < 4,
        0 <= j < 4,
        i != j,
    ensures
        placed_cell_row(pt, i) != placed_cell_row(pt, j) || placed_cell_col(pt, i)
            != placed_cell_col(pt, j),
{
    assert(pt.tetra@.offsets[i] != pt.tetra@.offsets[j]);
}

} // verus!
