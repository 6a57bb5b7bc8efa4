//! The backtracking search engine and its supporting state: grid cells,
//! free-cell bookkeeping, the candidate-position cache, and the accepted
//! results.
//!
//! A [`Configuration`] describes the grid and the blocked cells; its
//! [`Configuration::run`] method enumerates packings. Without a result cap
//! the search is exhaustive: shapes are tried in catalog order and a result
//! is recorded whenever the free-cell count reaches the minimum unavoidable
//! remainder. With a cap the search samples: at each call the catalog order
//! is reshuffled (with repetition), dead ends below an acceptance threshold
//! are recorded, and the search halts once the cap is reached.

use vstd::prelude::*;

verus! {

use vstd::set_lib::lemma_len_subset;
use crate::arith::{isqrt, spec_isqrt};
use crate::grid_backend::{grid_cells, grid_get, grid_init, grid_set};
use crate::randomness::RandomTetras;
use crate::tetra::{
    lemma_catalog_anchor_offset, lemma_covered_distinct, placed_cell_col, placed_cell_row,
    shape_cell_col, shape_cell_row, shape_fits, spec_catalog, static_tetras_iter, PlacedTetra,
    PlacedTetraInBoundaries, Tetra, TetraShape, TETRAS_COUNT,
};
use crate::util::{Pos, Size, SizeOf};

/// Cell code: nothing placed, available for a piece.
pub const CELL_EMPTY: u8 = 0;

/// Cell code: permanently blocked, set once at construction.
pub const CELL_UNAVAILABLE: u8 = 1;

/// Cell code: covered by a placement on the active search stack.
pub const CELL_OCCUPIED: u8 = 2;

/// Tri-state classification of a grid square.
#[derive(Clone, Copy, PartialEq, Eq, Structural, Debug)]
pub enum Cell {
    Empty,
    Unavailable,
    Occupied,
}

impl Cell {
    pub open spec fn spec_code(self) -> u8 {
        match self {
            Cell::Empty => CELL_EMPTY,
            Cell::Unavailable => CELL_UNAVAILABLE,
            Cell::Occupied => CELL_OCCUPIED,
        }
    }

    pub fn code(self) -> (c: u8)
        ensures
            c == self.spec_code(),
    {
        match self {
            Cell::Empty => CELL_EMPTY,
            Cell::Unavailable => CELL_UNAVAILABLE,
            Cell::Occupied => CELL_OCCUPIED,
        }
    }

    pub fn from_code(c: u8) -> (r: Cell)
        requires
            c == CELL_EMPTY || c == CELL_UNAVAILABLE || c == CELL_OCCUPIED,
        ensures
            r.spec_code() == c,
    {
        if c == CELL_EMPTY {
            Cell::Empty
        } else if c == CELL_UNAVAILABLE {
            Cell::Unavailable
        } else {
            Cell::Occupied
        }
    }
}

/// The pair of coordinates of a position, as mathematical integers.
pub open spec fn pos_pair(p: Pos) -> (int, int) {
    (p.row as int, p.col as int)
}

/// The set of coordinate pairs a sequence of positions describes.
pub open spec fn pos_set_of(s: Seq<Pos>) -> Set<(int, int)>
    decreases s.len(),
{
    if s.len() == 0 {
        Set::empty()
    } else {
        pos_set_of(s.drop_last()).insert(pos_pair(s.last()))
    }
}

pub proof fn lemma_pos_set_of_finite(s: Seq<Pos>)
    ensures
        pos_set_of(s).finite(),
    decreases s.len(),
{
    if s.len() > 0 {
        lemma_pos_set_of_finite(s.drop_last());
    }
}

pub proof fn lemma_pos_set_of_contains(s: Seq<Pos>)
    ensures
        forall|q: (int, int)|
            #[trigger] pos_set_of(s).contains(q) <==> exists|i: int|
                0 <= i < s.len() && pos_pair(#[trigger] s[i]) == q,
    decreases s.len(),
{
    if s.len() > 0 {
        lemma_pos_set_of_contains(s.drop_last());
        assert forall|q: (int, int)| #[trigger] pos_set_of(s).contains(q) implies exists|i: int|
            0 <= i < s.len() && pos_pair(#[trigger] s[i]) == q by {
            if q == pos_pair(s.last()) {
                assert(pos_pair(s[s.len() - 1]) == q);
            } else {
                assert(pos_set_of(s.drop_last()).contains(q));
                assert(exists|i: int|
                    0 <= i < s.drop_last().len() && pos_pair(#[trigger] s.drop_last()[i]) == q);
                let i = choose|i: int|
                    0 <= i < s.drop_last().len() && pos_pair(#[trigger] s.drop_last()[i]) == q;
                assert(s.drop_last()[i] == s[i]);
            }
        }
        assert forall|q: (int, int)|
            exists|i: int| 0 <= i < s.len() && pos_pair(#[trigger] s[i]) == q implies #[trigger]
        pos_set_of(s).contains(q) by {
            let i = choose|i: int| 0 <= i < s.len() && pos_pair(#[trigger] s[i]) == q;
            if i < s.len() - 1 {
                assert(s.drop_last()[i] == s[i]);
                assert(pos_pair(s.drop_last()[i]) == q);
                assert(pos_set_of(s.drop_last()).contains(q));
            } else {
                assert(q == pos_pair(s.last()));
            }
        }
    }
}

/// Errors rejected at configuration construction time.
#[derive(Clone, Copy, PartialEq, Eq, Structural, Debug)]
pub enum ConfigError {
    /// The grid has zero area.
    GridTooSmall,
    /// The grid's area does not fit the machine word.
    GridTooLarge,
    /// A blocked position lies outside the grid.
    BlockedOutOfBounds,
}

/// Grid size, blocked cells and an optional cap on accepted results.
#[derive(Debug)]
pub struct Configuration {
    size: Size,
    unavailable: Vec<Pos>,
    results_limit: Option<usize>,
}

impl Configuration {
    pub closed spec fn spec_size(self) -> Size {
        self.size
    }

    pub closed spec fn spec_unavailable(self) -> Seq<Pos> {
        self.unavailable@
    }

    pub closed spec fn spec_results_limit(self) -> Option<usize> {
        self.results_limit
    }

    /// The blocked cells, as a set of coordinate pairs; duplicates collapse.
    pub open spec fn blocked_set(self) -> Set<(int, int)> {
        pos_set_of(self.spec_unavailable())
    }

    /// How many distinct cells are blocked.
    pub open spec fn blocked_total(self) -> int {
        self.blocked_set().len() as int
    }

    pub open spec fn wf(self) -> bool {
        &&& 1 <= self.spec_size().rows
        &&& 1 <= self.spec_size().cols
        &&& self.spec_size().rows * self.spec_size().cols <= usize::MAX
        &&& forall|i: int|
            0 <= i < self.spec_unavailable().len()
                ==> (#[trigger] self.spec_unavailable()[i]).row < self.spec_size().rows
                && self.spec_unavailable()[i].col < self.spec_size().cols
        &&& match self.spec_results_limit() {
            Some(l) => l >= 1,
            None => true,
        }
    }

    /// The unavoidable number of leftover cells: usable area modulo the
    /// piece size.
    pub open spec fn min_remainder(self) -> int {
        (self.spec_size().rows * self.spec_size().cols - self.blocked_total()) % 4
    }

    /// Acceptance threshold of the randomized policy:
    /// `floor(sqrt(initial_free_cells - minimum_remainder))`.
    pub open spec fn acceptance_threshold(self) -> int {
        spec_isqrt(
            (self.spec_size().rows * self.spec_size().cols - self.blocked_total()
                - self.min_remainder()) as nat,
        ) as int
    }

    /// Builds a configuration, rejecting a grid of zero area, a grid whose
    /// area overflows, and blocked positions outside the grid.
    #[verifier::loop_isolation(false)]
    pub fn new(size: Size, unavailable: Vec<Pos>) -> (r: Result<Self, ConfigError>)
        ensures
            r matches Ok(cfg) ==> {
                &&& cfg.wf()
                &&& cfg.spec_size() == size
                &&& cfg.spec_unavailable() == unavailable@
                &&& cfg.spec_results_limit() is None
            },
            r is Ok <==> {
                &&& 1 <= size.rows
                &&& 1 <= size.cols
                &&& size.rows * size.cols <= usize::MAX
                &&& forall|i: int|
                    0 <= i < unavailable@.len() ==> (#[trigger] unavailable@[i]).row < size.rows
                        && unavailable@[i].col < size.cols
            },
            r matches Err(e) ==> e == if size.rows < 1 || size.cols < 1 {
                ConfigError::GridTooSmall
            } else if size.rows * size.cols > usize::MAX {
                ConfigError::GridTooLarge
            } else {
                ConfigError::BlockedOutOfBounds
            },
    {
        if size.rows < 1 || size.cols < 1 {
            return Err(ConfigError::GridTooSmall);
        }
        if size.rows > usize::MAX / size.cols {
            proof {
                vstd::arithmetic::div_mod::lemma_fundamental_div_mod(
                    usize::MAX as int,
                    size.cols as int,
                );
                assert(size.rows * size.cols > usize::MAX) by (nonlinear_arith)
                    requires
                        size.rows > usize::MAX / size.cols,
                        usize::MAX == (usize::MAX / size.cols) * size.cols + usize::MAX
                            % size.cols,
                        0 <= usize::MAX % size.cols < size.cols,
                        size.cols >= 1,
                ;
            }
            return Err(ConfigError::GridTooLarge);
        }
        proof {
            vstd::arithmetic::div_mod::lemma_fundamental_div_mod(
                usize::MAX as int,
                size.cols as int,
            );
            assert(size.rows * size.cols <= usize::MAX) by (nonlinear_arith)
                requires
                    size.rows <= usize::MAX / size.cols,
                    usize::MAX == (usize::MAX / size.cols) * size.cols + usize::MAX % size.cols,
                    0 <= usize::MAX % size.cols,
                    size.cols >= 1,
            ;
        }
        let mut i: usize = 0;
        while i < unavailable.len()
            invariant
                i <= unavailable@.len(),
                forall|j: int|
                    0 <= j < i ==> (#[trigger] unavailable@[j]).row < size.rows
                        && unavailable@[j].col < size.cols,
            decreases unavailable@.len() - i,
        {
            let p = unavailable[i];
            if p.row >= size.rows || p.col >= size.cols {
                return Err(ConfigError::BlockedOutOfBounds);
            }
            i = i + 1;
        }
        Ok(Self { size, unavailable, results_limit: None })
    }

    /// Caps the number of accepted results; selects the randomized policy.
    pub fn with_results_limit(self, value: usize) -> (r: Self)
        requires
            value >= 1,
        ensures
            r.spec_size() == self.spec_size(),
            r.spec_unavailable() == self.spec_unavailable(),
            r.spec_results_limit() == Some(value),
            self.wf() ==> r.wf(),
    {
        let mut s = self;
        s.results_limit = Some(value);
        proof {
            assert(s.spec_size() == self.spec_size());
            assert(s.spec_unavailable() == self.spec_unavailable());
            if self.wf() {
                assert(1 <= s.spec_size().rows);
                assert(s.spec_size().rows * s.spec_size().cols <= usize::MAX);
                assert(forall|i: int|
                    0 <= i < s.spec_unavailable().len()
                        ==> (#[trigger] s.spec_unavailable()[i]).row < s.spec_size().rows
                        && s.spec_unavailable()[i].col < s.spec_size().cols);
                assert(match s.spec_results_limit() {
                    Some(l) => l >= 1,
                    None => true,
                });
                assert(s.wf());
            }
        }
        s
    }

    /// The grid size.
    pub fn size(&self) -> (s: Size)
        ensures
            s == self.spec_size(),
    {
        self.size
    }

    /// The blocked positions, as given at construction.
    pub fn unavailable(&self) -> (r: &Vec<Pos>)
        ensures
            r@ == self.spec_unavailable(),
    {
        &self.unavailable
    }

    /// The configured result cap, if any.
    pub fn results_limit(&self) -> (r: Option<usize>)
        ensures
            r == self.spec_results_limit(),
    {
        self.results_limit
    }
}

/// One accepted packing: the placements on the stack at acceptance time and
/// the number of cells left empty.
pub struct PlacementResult {
    pub placement: Vec<PlacedTetraInBoundaries>,
    pub free: usize,
}

/// Observer interface for search instrumentation. Called synchronously, once
/// per recursive call and once per accepted result; it cannot affect the
/// search outcome.
pub trait CollectStats {
    fn recursions_inc(&mut self);

    fn results_inc(&mut self);
}

/// Whether placement `p` covers the absolute cell `(r, c)`.
pub open spec fn placement_covers(p: PlacedTetraInBoundaries, r: int, c: int) -> bool {
    exists|i: int| 0 <= i < 4 && #[trigger] p.cell_row(i) == r && p.cell_col(i) == c
}

/// Membership of a placement's shape in the catalog.
pub open spec fn from_catalog(p: PlacedTetraInBoundaries) -> bool {
    exists|t: int| 0 <= t < TETRAS_COUNT && p.spec_placed().tetra@ == #[trigger] spec_catalog()[t]
}

/// Every placement is well-formed, lies inside `bounds`, and holds a catalog
/// shape.
pub open spec fn placements_wf(ps: Seq<PlacedTetraInBoundaries>, bounds: Size) -> bool {
    forall|k: int|
        0 <= k < ps.len() ==> (#[trigger] ps[k]).wf() && ps[k].cells_within(bounds)
            && from_catalog(ps[k])
}

/// No cell is covered by two different placements.
pub open spec fn placements_disjoint(ps: Seq<PlacedTetraInBoundaries>) -> bool {
    forall|k1: int, k2: int, r: int, c: int|
        0 <= k1 < ps.len() && 0 <= k2 < ps.len() && k1 != k2 && #[trigger] placement_covers(
            ps[k1],
            r,
            c,
        ) ==> !#[trigger] placement_covers(ps[k2], r, c)
}

/// No covered cell is blocked.
pub open spec fn placements_avoid(ps: Seq<PlacedTetraInBoundaries>, blocked: Set<(int, int)>) -> bool {
    forall|k: int, r: int, c: int|
        0 <= k < ps.len() && #[trigger] placement_covers(ps[k], r, c) ==> !blocked.contains((r, c))
}

/// Validity of one accepted result against a grid of size `bounds` with the
/// given blocked cells: the placements are in bounds, pairwise disjoint,
/// avoid the blocked cells, and the recorded leftover accounts for every
/// cell of the grid.
pub open spec fn result_ok(
    bounds: Size,
    blocked: Set<(int, int)>,
    blocked_count: int,
    r: PlacementResult,
) -> bool {
    &&& placements_wf(r.placement@, bounds)
    &&& placements_disjoint(r.placement@)
    &&& placements_avoid(r.placement@, blocked)
    &&& r.free + 4 * r.placement@.len() + blocked_count == bounds.rows * bounds.cols
}

/// Validity of one accepted result against a configuration.
pub open spec fn config_result_ok(cfg: Configuration, r: PlacementResult) -> bool {
    result_ok(cfg.spec_size(), cfg.blocked_set(), cfg.blocked_total(), r)
}

/// Whether some position in `cache` names the cell `(r, c)`.
pub open spec fn seq_cache_has(cache: Seq<Pos>, r: int, c: int) -> bool {
    exists|j: int| 0 <= j < cache.len() && (#[trigger] cache[j]).row == r && cache[j].col == c
}

/// Strict row-major order on grid positions.
pub open spec fn pos_row_major_lt(a: Pos, b: Pos) -> bool {
    a.row < b.row || (a.row == b.row && a.col < b.col)
}

/// The cache is strictly ascending in row-major order (hence duplicate
/// free), so a first fit in cache order is a first fit in grid order.
pub open spec fn cache_sorted(cache: Seq<Pos>) -> bool {
    forall|i: int, j: int|
        0 <= i < j < cache.len() ==> pos_row_major_lt(#[trigger] cache[i], #[trigger] cache[j])
}

/// A strictly sorted position list is determined by its membership: two
/// sorted lists naming the same positions are equal. Together with the
/// membership clauses of `with_configuration`, this fixes the initial cache
/// completely.
pub proof fn lemma_sorted_cache_unique(a: Seq<Pos>, b: Seq<Pos>)
    requires
        cache_sorted(a),
        cache_sorted(b),
        forall|p: Pos| a.contains(p) <==> b.contains(p),
    ensures
        a == b,
    decreases a.len(),
{
    if a.len() == 0 {
        if b.len() > 0 {
            assert(b.contains(b[0]));
            assert(a.contains(b[0]));
            let i = choose|i: int| 0 <= i < a.len() && a[i] == b[0];
            assert(false);
        }
        assert(a =~= b);
    } else {
        assert(a.contains(a[0]));
        assert(b.contains(a[0]));
        let j = choose|j: int| 0 <= j < b.len() && b[j] == a[0];
        assert(b.contains(b[0]));
        assert(a.contains(b[0]));
        let i = choose|i: int| 0 <= i < a.len() && a[i] == b[0];
        if j > 0 {
            assert(pos_row_major_lt(b[0], b[j]));
            if i > 0 {
                assert(pos_row_major_lt(a[0], a[i]));
            }
            assert(false);
        }
        assert(a[0] == b[0]);
        let at = a.drop_first();
        let bt = b.drop_first();
        assert forall|p: Pos| at.contains(p) implies bt.contains(p) by {
            let k = choose|k: int| 0 <= k < at.len() && at[k] == p;
            assert(a[k + 1] == p);
            assert(a.contains(p));
            assert(b.contains(p));
            let k2 = choose|k2: int| 0 <= k2 < b.len() && b[k2] == p;
            assert(pos_row_major_lt(a[0], a[k + 1]));
            if k2 == 0 {
                assert(false);
            }
            assert(bt[k2 - 1] == p);
        }
        assert forall|p: Pos| bt.contains(p) implies at.contains(p) by {
            let k = choose|k: int| 0 <= k < bt.len() && bt[k] == p;
            assert(b[k + 1] == p);
            assert(b.contains(p));
            assert(a.contains(p));
            let k2 = choose|k2: int| 0 <= k2 < a.len() && a[k2] == p;
            assert(pos_row_major_lt(b[0], b[k + 1]));
            if k2 == 0 {
                assert(false);
            }
            assert(at[k2 - 1] == p);
        }
        assert forall|i2: int, j2: int|
            0 <= i2 < j2 < at.len() implies pos_row_major_lt(
            #[trigger] at[i2],
            #[trigger] at[j2],
        ) by {
            assert(at[i2] == a[i2 + 1] && at[j2] == a[j2 + 1]);
        }
        assert forall|i2: int, j2: int|
            0 <= i2 < j2 < bt.len() implies pos_row_major_lt(
            #[trigger] bt[i2],
            #[trigger] bt[j2],
        ) by {
            assert(bt[i2] == b[i2 + 1] && bt[j2] == b[j2 + 1]);
        }
        lemma_sorted_cache_unique(at, bt);
        assert(at.len() == bt.len());
        assert forall|x: int| 0 <= x < a.len() implies a[x] == b[x] by {
            if x > 0 {
                assert(a[x] == at[x - 1]);
                assert(b[x] == bt[x - 1]);
                assert(at[x - 1] == bt[x - 1]);
            }
        }
        assert(a =~= b);
    }
}

// ------------------------------------------------------------------
// Cardinality of cell sets.
// ------------------------------------------------------------------

/// All cells of a `rows` x `cols` grid.
pub open spec fn box_set(rows: int, cols: int) -> Set<(int, int)> {
    Set::new(|q: (int, int)| 0 <= q.0 < rows && 0 <= q.1 < cols)
}

/// One row of cells of a grid with `cols` columns.
spec fn strip_set(r: int, cols: int) -> Set<(int, int)> {
    Set::new(|q: (int, int)| q.0 == r && 0 <= q.1 < cols)
}

proof fn lemma_strip_set_len(r: int, cols: int)
    requires
        cols >= 0,
    ensures
        strip_set(r, cols).finite(),
        strip_set(r, cols).len() == cols,
    decreases cols,
{
    if cols == 0 {
        assert(strip_set(r, 0) =~= Set::empty());
    } else {
        lemma_strip_set_len(r, cols - 1);
        assert(strip_set(r, cols) =~= strip_set(r, cols - 1).insert((r, cols - 1)));
    }
}

/// Two disjoint finite sets: the union's size is the sum of the sizes.
pub proof fn lemma_len_disjoint_union<A>(s1: Set<A>, s2: Set<A>)
    requires
        s1.finite(),
        s2.finite(),
        s1.intersect(s2) =~= Set::empty(),
    ensures
        s1.union(s2).finite(),
        s1.union(s2).len() == s1.len() + s2.len(),
    decreases s1.len(),
{
    if s1.len() == 0 {
        assert(s1 =~= Set::empty());
        assert(s1.union(s2) =~= s2);
    } else {
        let a = s1.choose();
        assert(s1.contains(a));
        assert(s1.remove(a).intersect(s2) =~= Set::empty());
        lemma_len_disjoint_union(s1.remove(a), s2);
        assert(s1.union(s2) =~= s1.remove(a).union(s2).insert(a));
        assert(!s1.intersect(s2).contains(a));
        assert(!s2.contains(a));
        assert(!s1.remove(a).union(s2).contains(a));
    }
}

/// A grid of size `rows` x `cols` has `rows * cols` cells.
pub proof fn lemma_box_set_len(rows: int, cols: int)
    requires
        rows >= 0,
        cols >= 0,
    ensures
        box_set(rows, cols).finite(),
        box_set(rows, cols).len() == rows * cols,
    decreases rows,
{
    if rows == 0 {
        assert(box_set(0, cols) =~= Set::empty());
    } else {
        lemma_box_set_len(rows - 1, cols);
        lemma_strip_set_len(rows - 1, cols);
        assert(box_set(rows - 1, cols).intersect(strip_set(rows - 1, cols)) =~= Set::empty());
        lemma_len_disjoint_union(box_set(rows - 1, cols), strip_set(rows - 1, cols));
        assert(box_set(rows, cols) =~= box_set(rows - 1, cols).union(strip_set(rows - 1, cols)));
        assert((rows - 1) * cols + cols == rows * cols) by (nonlinear_arith);
    }
}

/// The set of cells one placement covers.
pub open spec fn placement_cell_set(p: PlacedTetraInBoundaries) -> Set<(int, int)> {
    Set::new(|q: (int, int)| placement_covers(p, q.0, q.1))
}

/// A well-formed placement covers exactly four cells.
pub proof fn lemma_placement_cell_set_len(p: PlacedTetraInBoundaries)
    requires
        p.wf(),
    ensures
        placement_cell_set(p).finite(),
        placement_cell_set(p).len() == 4,
{
    let c0 = (p.cell_row(0), p.cell_col(0));
    let c1 = (p.cell_row(1), p.cell_col(1));
    let c2 = (p.cell_row(2), p.cell_col(2));
    let c3 = (p.cell_row(3), p.cell_col(3));
    assert forall|i: int, j: int| 0 <= i < 4 && 0 <= j < 4 && i != j implies (
    #[trigger] p.cell_row(i), p.cell_col(i)) != (#[trigger] p.cell_row(j), p.cell_col(j)) by {
        lemma_covered_distinct(p.spec_placed(), i, j);
    }
    assert(placement_cell_set(p) =~= Set::empty().insert(c0).insert(c1).insert(c2).insert(c3));
}

/// The set of cells covered by a stack of placements.
pub open spec fn covered_set(ps: Seq<PlacedTetraInBoundaries>) -> Set<(int, int)> {
    Set::new(
        |q: (int, int)| exists|k: int| 0 <= k < ps.len() && placement_covers(#[trigger] ps[k], q.0, q.1),
    )
}

/// Pairwise disjoint well-formed placements cover `4 * len` cells.
pub proof fn lemma_covered_set_len(ps: Seq<PlacedTetraInBoundaries>)
    requires
        forall|k: int| 0 <= k < ps.len() ==> (#[trigger] ps[k]).wf(),
        placements_disjoint(ps),
    ensures
        covered_set(ps).finite(),
        covered_set(ps).len() == 4 * ps.len(),
    decreases ps.len(),
{
    if ps.len() == 0 {
        assert(covered_set(ps) =~= Set::empty());
    } else {
        let prefix = ps.drop_last();
        let last = ps.last();
        assert forall|k: int| 0 <= k < prefix.len() implies (#[trigger] prefix[k]).wf() by {
            assert(prefix[k] == ps[k]);
        }
        assert forall|k1: int, k2: int, r: int, c: int|
            0 <= k1 < prefix.len() && 0 <= k2 < prefix.len() && k1 != k2 && #[trigger]
            placement_covers(prefix[k1], r, c) implies !#[trigger] placement_covers(
            prefix[k2],
            r,
            c,
        ) by {
            assert(prefix[k1] == ps[k1] && prefix[k2] == ps[k2]);
        }
        lemma_covered_set_len(prefix);
        lemma_placement_cell_set_len(last);
        assert(covered_set(prefix).intersect(placement_cell_set(last)) =~= Set::empty()) by {
            assert forall|q: (int, int)|
                !(covered_set(prefix).contains(q) && placement_cell_set(last).contains(q)) by {
                if covered_set(prefix).contains(q) && placement_cell_set(last).contains(q) {
                    let k = choose|k: int|
                        0 <= k < prefix.len() && placement_covers(#[trigger] prefix[k], q.0, q.1);
                    assert(prefix[k] == ps[k]);
                    assert(placement_covers(ps[k], q.0, q.1));
                    assert(placement_covers(ps[ps.len() - 1], q.0, q.1));
                }
            }
        }
        lemma_len_disjoint_union(covered_set(prefix), placement_cell_set(last));
        assert(covered_set(ps) =~= covered_set(prefix).union(placement_cell_set(last))) by {
            assert forall|q: (int, int)| covered_set(ps).contains(q) implies covered_set(
                prefix,
            ).union(placement_cell_set(last)).contains(q) by {
                let k = choose|k: int|
                    0 <= k < ps.len() && placement_covers(#[trigger] ps[k], q.0, q.1);
                if k < ps.len() - 1 {
                    assert(prefix[k] == ps[k]);
                    assert(placement_covers(prefix[k], q.0, q.1));
                } else {
                    assert(placement_cell_set(last).contains(q));
                }
            }
            assert forall|q: (int, int)|
                covered_set(prefix).union(placement_cell_set(last)).contains(q) implies covered_set(
                ps,
            ).contains(q) by {
                if covered_set(prefix).contains(q) {
                    let k = choose|k: int|
                        0 <= k < prefix.len() && placement_covers(#[trigger] prefix[k], q.0, q.1);
                    assert(prefix[k] == ps[k]);
                    assert(placement_covers(ps[k], q.0, q.1));
                } else {
                    assert(placement_covers(ps[ps.len() - 1], q.0, q.1));
                }
            }
        }
    }
}

/// Whether some placement of `ps` covers the absolute cell `(r, c)`.
pub open spec fn stack_covers(ps: Seq<PlacedTetraInBoundaries>, r: int, c: int) -> bool {
    exists|k: int| 0 <= k < ps.len() && placement_covers(#[trigger] ps[k], r, c)
}

/// The search state: the grid, its bookkeeping counters, the placement
/// stack, the accepted results, and the candidate-position cache.
///
/// Created once per run from a [`Configuration`] and driven by
/// [`Configuration::run`]; it is also exposed directly so that the cache and
/// grid invariants can be exercised against arbitrary fill/unfill sequences.
pub struct RecursionState {
    grid: grid::Grid<u8>,
    rows: usize,
    cols: usize,
    how_many_free: usize,
    initially_unavailable: usize,
    min_free_cells: usize,
    acceptance_threshold: usize,
    results_limit: Option<usize>,
    catalog: Vec<Tetra>,
    stack: Vec<PlacedTetraInBoundaries>,
    results: Vec<PlacementResult>,
    positions_for_lookup: Vec<Pos>,
    fills_since_refresh: usize,
    random_tetras: RandomTetras,
    blocked: Ghost<Set<(int, int)>>,
}

impl RecursionState {
    /// The grid's contents, row by row.
    pub closed spec fn cells(self) -> Seq<Seq<u8>> {
        grid_cells(self.grid)
    }

    pub closed spec fn spec_rows(self) -> int {
        self.rows as int
    }

    pub closed spec fn spec_cols(self) -> int {
        self.cols as int
    }

    pub closed spec fn spec_bounds(self) -> Size {
        Size { rows: self.rows, cols: self.cols }
    }

    pub closed spec fn spec_free(self) -> int {
        self.how_many_free as int
    }

    pub closed spec fn spec_blocked(self) -> Set<(int, int)> {
        self.blocked@
    }

    pub closed spec fn spec_blocked_count(self) -> int {
        self.initially_unavailable as int
    }

    pub closed spec fn spec_min_free(self) -> int {
        self.min_free_cells as int
    }

    pub closed spec fn spec_threshold(self) -> int {
        self.acceptance_threshold as int
    }

    pub closed spec fn spec_limit(self) -> Option<usize> {
        self.results_limit
    }

    pub closed spec fn spec_stack(self) -> Seq<PlacedTetraInBoundaries> {
        self.stack@
    }

    pub closed spec fn spec_results(self) -> Seq<PlacementResult> {
        self.results@
    }

    pub closed spec fn spec_cache(self) -> Seq<Pos> {
        self.positions_for_lookup@
    }

    spec fn dims_ok(self) -> bool {
        &&& self.cells().len() == self.rows
        &&& forall|r: int|
            0 <= r < self.spec_rows() ==> (#[trigger] self.cells()[r]).len() == self.cols
        &&& 1 <= self.rows
        &&& 1 <= self.cols
        &&& self.rows * self.cols <= usize::MAX
    }

    spec fn cell_states_ok(self) -> bool {
        &&& forall|r: int, c: int|
            #![trigger self.cells()[r][c]]
            0 <= r < self.spec_rows() && 0 <= c < self.spec_cols() ==> (self.cells()[r][c]
                == CELL_EMPTY || self.cells()[r][c] == CELL_UNAVAILABLE || self.cells()[r][c]
                == CELL_OCCUPIED)
        &&& forall|r: int, c: int|
            #![trigger self.cells()[r][c]]
            0 <= r < self.spec_rows() && 0 <= c < self.spec_cols() ==> (self.cells()[r][c]
                == CELL_UNAVAILABLE <==> self.spec_blocked().contains((r, c)))
        &&& forall|r: int, c: int|
            #![trigger self.cells()[r][c]]
            0 <= r < self.spec_rows() && 0 <= c < self.spec_cols() ==> (self.cells()[r][c]
                == CELL_OCCUPIED <==> stack_covers(self.spec_stack(), r, c))
        &&& forall|q: (int, int)|
            #[trigger] self.spec_blocked().contains(q) ==> 0 <= q.0 < self.spec_rows() && 0 <= q.1
                < self.spec_cols()
    }

    spec fn stack_ok(self) -> bool {
        &&& placements_wf(self.spec_stack(), self.spec_bounds())
        &&& placements_disjoint(self.spec_stack())
    }

    spec fn counts_ok(self) -> bool {
        &&& self.spec_free() + 4 * self.spec_stack().len() + self.spec_blocked_count()
            == self.spec_rows() * self.spec_cols()
        &&& self.spec_blocked().finite()
        &&& self.spec_blocked_count() == self.spec_blocked().len()
    }

    spec fn cache_ok(self) -> bool {
        forall|r: int, c: int|
            0 <= r < self.spec_rows() && 0 <= c < self.spec_cols() && self.cells()[r][c]
                == CELL_EMPTY ==> #[trigger] seq_cache_has(self.spec_cache(), r, c)
    }

    spec fn cache_order_ok(self) -> bool {
        cache_sorted(self.spec_cache())
    }

    spec fn results_ok(self) -> bool {
        forall|j: int|
            0 <= j < self.spec_results().len() ==> result_ok(
                self.spec_bounds(),
                self.spec_blocked(),
                self.spec_blocked_count(),
                #[trigger] self.spec_results()[j],
            )
    }

    spec fn catalog_ok(self) -> bool {
        &&& self.catalog@.len() == TETRAS_COUNT
        &&& forall|i: int|
            0 <= i < TETRAS_COUNT ==> (#[trigger] self.catalog@[i])@ == spec_catalog()[i]
                && self.catalog@[i].wf()
    }

    spec fn limit_ok(self) -> bool {
        match self.results_limit {
            Some(l) => l >= 1 && self.spec_results().len() <= l,
            None => true,
        }
    }

    spec fn thresholds_ok(self) -> bool {
        &&& self.spec_min_free() == (self.spec_rows() * self.spec_cols()
            - self.spec_blocked_count()) % 4
        &&& self.spec_threshold() == spec_isqrt(
            (self.spec_rows() * self.spec_cols() - self.spec_blocked_count()
                - self.spec_min_free()) as nat,
        )
    }

    /// The engine's invariant. It holds from construction on, across every
    /// fill and unfill, and in particular whenever the candidate cache is
    /// queried.
    pub closed spec fn wf(self) -> bool {
        &&& self.dims_ok()
        &&& self.cell_states_ok()
        &&& self.stack_ok()
        &&& self.counts_ok()
        &&& self.cache_ok()
        &&& self.cache_order_ok()
        &&& self.results_ok()
        &&& self.catalog_ok()
        &&& self.limit_ok()
        &&& self.thresholds_ok()
    }

    /// Fields fixed for the whole run: grid geometry, blocked cells,
    /// thresholds, the cap and the catalog.
    pub closed spec fn same_setup(self, other: Self) -> bool {
        &&& other.rows == self.rows
        &&& other.cols == self.cols
        &&& other.initially_unavailable == self.initially_unavailable
        &&& other.min_free_cells == self.min_free_cells
        &&& other.acceptance_threshold == self.acceptance_threshold
        &&& other.results_limit == self.results_limit
        &&& other.blocked@ == self.blocked@
        &&& other.catalog@ == self.catalog@
    }

    /// Builds the initial state for a configuration: all cells empty, then
    /// each blocked position marked unavailable (duplicates collapse), the
    /// thresholds derived, and the candidate cache filled with every empty
    /// position in row-major order.
    #[verifier::loop_isolation(false)]
    pub fn with_configuration(cfg: &Configuration) -> (s: Self)
        requires
            cfg.wf(),
        ensures
            s.wf(),
            s.spec_rows() == cfg.spec_size().rows,
            s.spec_cols() == cfg.spec_size().cols,
            s.spec_blocked() == cfg.blocked_set(),
            s.spec_blocked_count() == cfg.blocked_total(),
            s.spec_stack() == Seq::<PlacedTetraInBoundaries>::empty(),
            s.spec_results() == Seq::<PlacementResult>::empty(),
            s.spec_limit() == cfg.spec_results_limit(),
            s.spec_free() == cfg.spec_size().rows * cfg.spec_size().cols - cfg.blocked_total(),
            forall|r: int, c: int|
                0 <= r < s.spec_rows() && 0 <= c < s.spec_cols() ==> #[trigger] s.cells()[r][c]
                    == (if cfg.blocked_set().contains((r, c)) {
                    CELL_UNAVAILABLE
                } else {
                    CELL_EMPTY
                }),
            cache_sorted(s.spec_cache()),
            forall|k: int|
                0 <= k < s.spec_cache().len() ==> (#[trigger] s.spec_cache()[k]).row
                    < s.spec_rows() && s.spec_cache()[k].col < s.spec_cols()
                    && s.cells()[s.spec_cache()[k].row as int][s.spec_cache()[k].col as int]
                    == CELL_EMPTY,
            forall|r: int, c: int|
                0 <= r < s.spec_rows() && 0 <= c < s.spec_cols() && s.cells()[r][c] == CELL_EMPTY
                    ==> #[trigger] seq_cache_has(s.spec_cache(), r, c),
    {
        let rows = cfg.size.rows;
        let cols = cfg.size.cols;
        let area = rows * cols;
        let mut grid = grid_init(rows, cols, CELL_EMPTY);
        let mut how_many_free = area;
        let mut initially_unavailable: usize = 0;
        let ghost mut blocked: Set<(int, int)> = Set::empty();

        proof {
            lemma_box_set_len(rows as int, cols as int);
            lemma_pos_set_of_contains(cfg.spec_unavailable());
        }

        let mut i: usize = 0;
        while i < cfg.unavailable.len()
            invariant
                i <= cfg.spec_unavailable().len(),
                grid_cells(grid).len() == rows,
                forall|r: int| 0 <= r < rows ==> (#[trigger] grid_cells(grid)[r]).len() == cols,
                forall|r: int, c: int|
                    #![trigger grid_cells(grid)[r][c]]
                    0 <= r < rows && 0 <= c < cols ==> (grid_cells(grid)[r][c] == CELL_EMPTY
                        || grid_cells(grid)[r][c] == CELL_UNAVAILABLE),
                forall|r: int, c: int|
                    #![trigger grid_cells(grid)[r][c]]
                    0 <= r < rows && 0 <= c < cols ==> (grid_cells(grid)[r][c]
                        == CELL_UNAVAILABLE <==> blocked.contains((r, c))),
                forall|q: (int, int)|
                    #[trigger] blocked.contains(q) ==> 0 <= q.0 < rows && 0 <= q.1 < cols,
                blocked == pos_set_of(cfg.spec_unavailable().take(i as int)),
                blocked.finite(),
                initially_unavailable == blocked.len(),
                how_many_free + initially_unavailable == area,
            decreases cfg.spec_unavailable().len() - i,
        {
            let p = cfg.unavailable[i];
            let ghost pre = blocked;
            let cur = grid_get(&grid, p.row, p.col);
            if cur == CELL_EMPTY {
                proof {
                    assert(!blocked.contains((p.row as int, p.col as int)));
                    assert(blocked.subset_of(
                        box_set(rows as int, cols as int).remove((p.row as int, p.col as int)),
                    ));
                    lemma_len_subset(
                        blocked,
                        box_set(rows as int, cols as int).remove((p.row as int, p.col as int)),
                    );
                    assert(blocked.len() <= rows * cols - 1);
                }
                grid_set(&mut grid, p.row, p.col, CELL_UNAVAILABLE);
                initially_unavailable = initially_unavailable + 1;
                how_many_free = how_many_free - 1;
            }
            proof {
                blocked = blocked.insert((p.row as int, p.col as int));
                if cur != CELL_EMPTY {
                    assert(pre.contains((p.row as int, p.col as int)));
                    assert(blocked =~= pre);
                }
                assert(cfg.spec_unavailable().take(i + 1).drop_last() =~= cfg.spec_unavailable()
                    .take(i as int));
                assert(cfg.spec_unavailable().take(i + 1).last() == cfg.spec_unavailable()[
                    i as int]);
            }
            i = i + 1;
        }

        proof {
            assert(cfg.spec_unavailable().take(cfg.spec_unavailable().len() as int)
                =~= cfg.spec_unavailable());
        }

        let usable = area - initially_unavailable;
        let min_free_cells = usable % 4;
        proof {
            vstd::arithmetic::div_mod::lemma_fundamental_div_mod(usable as int, 4int);
            assert(usable / 4 >= 0);
            assert(min_free_cells <= usable) by (nonlinear_arith)
                requires
                    usable >= 0,
                    min_free_cells == usable - 4 * (usable / 4),
                    usable / 4 >= 0,
            ;
        }
        let acceptance_threshold = isqrt(usable - min_free_cells);

        let positions_for_lookup = Self::scan_empty_positions(&grid, rows, cols);

        let s = Self {
            grid,
            rows,
            cols,
            how_many_free,
            initially_unavailable,
            min_free_cells,
            acceptance_threshold,
            results_limit: cfg.results_limit,
            catalog: static_tetras_iter(),
            stack: Vec::new(),
            results: Vec::new(),
            positions_for_lookup,
            fills_since_refresh: 0,
            random_tetras: RandomTetras::new(),
            blocked: Ghost(blocked),
        };
        proof {
            assert forall|r: int, c: int|
                #![trigger s.cells()[r][c]]
                0 <= r < s.spec_rows() && 0 <= c < s.spec_cols() implies (s.cells()[r][c]
                == CELL_OCCUPIED <==> stack_covers(s.spec_stack(), r, c)) by {
                assert(!stack_covers(s.spec_stack(), r, c));
            }
            assert(s.spec_stack() =~= Seq::<PlacedTetraInBoundaries>::empty());
            assert(s.spec_results() =~= Seq::<PlacementResult>::empty());
        }
        s
    }

    /// Collects every currently empty position, in row-major order.
    #[verifier::loop_isolation(false)]
    fn scan_empty_positions(grid: &grid::Grid<u8>, rows: usize, cols: usize) -> (v: Vec<Pos>)
        requires
            grid_cells(*grid).len() == rows,
            forall|r: int| 0 <= r < rows ==> (#[trigger] grid_cells(*grid)[r]).len() == cols,
        ensures
            forall|r: int, c: int|
                0 <= r < rows && 0 <= c < cols && grid_cells(*grid)[r][c] == CELL_EMPTY
                    ==> #[trigger] seq_cache_has(v@, r, c),
            forall|k: int|
                0 <= k < v@.len() ==> (#[trigger] v@[k]).row < rows && v@[k].col < cols
                    && grid_cells(*grid)[v@[k].row as int][v@[k].col as int] == CELL_EMPTY,
            cache_sorted(v@),
    {
        let mut v: Vec<Pos> = Vec::new();
        let mut row: usize = 0;
        while row < rows
            invariant
                row <= rows,
                forall|r: int, c: int|
                    0 <= r < row && 0 <= c < cols && grid_cells(*grid)[r][c] == CELL_EMPTY
                        ==> #[trigger] seq_cache_has(v@, r, c),
                forall|k: int|
                    0 <= k < v@.len() ==> (#[trigger] v@[k]).row < row && v@[k].col < cols
                        && grid_cells(*grid)[v@[k].row as int][v@[k].col as int] == CELL_EMPTY,
                cache_sorted(v@),
            decreases rows - row,
        {
            let mut col: usize = 0;
            while col < cols
                invariant
                    row < rows,
                    col <= cols,
                    forall|r: int, c: int|
                        0 <= r < row && 0 <= c < cols && grid_cells(*grid)[r][c] == CELL_EMPTY
                            ==> #[trigger] seq_cache_has(v@, r, c),
                    forall|c: int|
                        0 <= c < col && grid_cells(*grid)[row as int][c] == CELL_EMPTY
                            ==> #[trigger] seq_cache_has(v@, row as int, c),
                    forall|k: int|
                        0 <= k < v@.len() ==> ((#[trigger] v@[k]).row < row || (v@[k].row == row
                            && v@[k].col < col)) && v@[k].row < rows && v@[k].col < cols
                            && grid_cells(*grid)[v@[k].row as int][v@[k].col as int]
                            == CELL_EMPTY,
                    cache_sorted(v@),
                decreases cols - col,
            {
                let ghost pre_cache = v@;
                if grid_get(grid, row, col) == CELL_EMPTY {
                    v.push(Pos { row, col });
                    proof {
                        assert forall|i: int, j: int|
                            0 <= i < j < v@.len() implies pos_row_major_lt(
                            #[trigger] v@[i],
                            #[trigger] v@[j],
                        ) by {
                            if j == v@.len() - 1 {
                                assert(v@[i] == pre_cache[i]);
                                assert(v@[j] == (Pos { row, col }));
                            } else {
                                assert(v@[i] == pre_cache[i]);
                                assert(v@[j] == pre_cache[j]);
                            }
                        }
                    }
                }
                proof {
                    assert forall|r: int, c: int|
                        seq_cache_has(pre_cache, r, c) implies #[trigger] seq_cache_has(
                        v@,
                        r,
                        c,
                    ) by {
                        let j = choose|j: int|
                            0 <= j < pre_cache.len() && (#[trigger] pre_cache[j]).row == r
                                && pre_cache[j].col == c;
                        assert(v@[j] == pre_cache[j]);
                    }
                    if grid_cells(*grid)[row as int][col as int] == CELL_EMPTY {
                        assert(v@.last() == Pos { row, col });
                        assert(seq_cache_has(v@, row as int, col as int));
                    }
                }
                col = col + 1;
            }
            row = row + 1;
        }
        v
    }

    /// Rebuilds the candidate cache to exactly the empty positions.
    fn refresh_cache(&mut self)
        requires
            old(self).dims_ok(),
        ensures
            *final(self) == (RecursionState {
                positions_for_lookup: final(self).positions_for_lookup,
                ..*old(self)
            }),
            forall|r: int, c: int|
                0 <= r < old(self).spec_rows() && 0 <= c < old(self).spec_cols()
                    && old(self).cells()[r][c] == CELL_EMPTY ==> #[trigger] seq_cache_has(
                    final(self).spec_cache(),
                    r,
                    c,
                ),
            cache_sorted(final(self).spec_cache()),
    {
        let v = Self::scan_empty_positions(&self.grid, self.rows, self.cols);
        self.positions_for_lookup = v;
    }

    /// Writes `value` into the four cells `p` covers; nothing else changes.
    #[verifier::loop_isolation(false)]
    fn set_covered(&mut self, p: &PlacedTetraInBoundaries, value: u8)
        requires
            p.wf(),
            p.cells_within((Size { rows: old(self).rows, cols: old(self).cols })),
            old(self).dims_ok(),
        ensures
            *final(self) == (RecursionState { grid: final(self).grid, ..*old(self) }),
            final(self).cells().len() == old(self).cells().len(),
            forall|r: int|
                0 <= r < old(self).spec_rows() ==> (#[trigger] final(self).cells()[r]).len()
                    == old(self).cells()[r].len(),
            forall|r: int, c: int|
                #![trigger final(self).cells()[r][c]]
                0 <= r < old(self).spec_rows() && 0 <= c < old(self).spec_cols()
                    ==> final(self).cells()[r][c] == if placement_covers(*p, r, c) {
                    value
                } else {
                    old(self).cells()[r][c]
                },
    {
        let cover = p.iter_relative_to_place();
        let mut i: usize = 0;
        while i < 4
            invariant
                i <= 4,
                cover@.len() == 4,
                forall|j: int|
                    0 <= j < 4 ==> (#[trigger] cover@[j]).row == p.cell_row(j) && cover@[j].col
                        == p.cell_col(j),
                *self == (RecursionState { grid: self.grid, ..*old(self) }),
                self.cells().len() == old(self).cells().len(),
                forall|r: int|
                    0 <= r < old(self).spec_rows() ==> (#[trigger] self.cells()[r]).len()
                        == old(self).cells()[r].len(),
                forall|r: int, c: int|
                    #![trigger self.cells()[r][c]]
                    0 <= r < old(self).spec_rows() && 0 <= c < old(self).spec_cols()
                        ==> self.cells()[r][c] == if exists|ii: int|
                        0 <= ii < i && #[trigger] p.cell_row(ii) == r && p.cell_col(ii) == c {
                        value
                    } else {
                        old(self).cells()[r][c]
                    },
            decreases 4 - i,
        {
            let pos = cover[i];
            let ghost pre = self.cells();
            grid_set(&mut self.grid, pos.row, pos.col, value);
            proof {
                assert forall|r: int, c: int|
                    #![trigger self.cells()[r][c]]
                    0 <= r < old(self).spec_rows() && 0 <= c < old(self).spec_cols() implies self.cells()[r][c]
                    == if exists|ii: int|
                    0 <= ii < i + 1 && #[trigger] p.cell_row(ii) == r && p.cell_col(ii) == c {
                    value
                } else {
                    old(self).cells()[r][c]
                } by {
                    if r == pos.row as int && c == pos.col as int {
                        assert(p.cell_row(i as int) == r && p.cell_col(i as int) == c);
                    } else {
                        assert(self.cells()[r][c] == pre[r][c]);
                        if exists|ii: int|
                            0 <= ii < i + 1 && #[trigger] p.cell_row(ii) == r && p.cell_col(ii)
                                == c {
                            let ii = choose|ii: int|
                                0 <= ii < i + 1 && #[trigger] p.cell_row(ii) == r && p.cell_col(
                                    ii,
                                ) == c;
                            assert(ii < i);
                        }
                    }
                }
            }
            i = i + 1;
        }
        proof {
            assert forall|r: int, c: int|
                #![trigger self.cells()[r][c]]
                0 <= r < old(self).spec_rows() && 0 <= c < old(self).spec_cols() implies self.cells()[r][c]
                == if placement_covers(*p, r, c) {
                value
            } else {
                old(self).cells()[r][c]
            } by {
                if placement_covers(*p, r, c) {
                    let ii = choose|ii: int|
                        0 <= ii < 4 && #[trigger] p.cell_row(ii) == r && p.cell_col(ii) == c;
                    assert(exists|jj: int|
                        0 <= jj < 4 && #[trigger] p.cell_row(jj) == r && p.cell_col(jj) == c);
                }
            }
        }
    }
}

/// Under the engine invariant, a placement whose four cells are empty
/// witnesses at least four free cells.
proof fn lemma_free_lower_bound(s: RecursionState, p: PlacedTetraInBoundaries)
    requires
        s.wf(),
        p.wf(),
        p.cells_within(s.spec_bounds()),
        forall|i: int|
            0 <= i < 4 ==> s.cells()[#[trigger] p.cell_row(i)][p.cell_col(i)] == CELL_EMPTY,
    ensures
        s.spec_free() >= 4,
{
    let rows = s.spec_rows();
    let cols = s.spec_cols();
    let grid_all = box_set(rows, cols);
    let b = s.spec_blocked();
    let cov = covered_set(s.spec_stack());
    lemma_box_set_len(rows, cols);
    lemma_covered_set_len(s.spec_stack());
    assert(cov.subset_of(grid_all)) by {
        assert forall|q: (int, int)| cov.contains(q) implies grid_all.contains(q) by {
            let k = choose|k: int|
                0 <= k < s.spec_stack().len() && placement_covers(
                    #[trigger] s.spec_stack()[k],
                    q.0,
                    q.1,
                );
            let i = choose|i: int|
                0 <= i < 4 && #[trigger] s.spec_stack()[k].cell_row(i) == q.0
                    && s.spec_stack()[k].cell_col(i) == q.1;
            assert(s.spec_stack()[k].cells_within(s.spec_bounds()));
        }
    }
    assert(b.intersect(cov) =~= Set::empty()) by {
        assert forall|q: (int, int)| !(b.contains(q) && cov.contains(q)) by {
            if b.contains(q) && cov.contains(q) {
                let k = choose|k: int|
                    0 <= k < s.spec_stack().len() && placement_covers(
                        #[trigger] s.spec_stack()[k],
                        q.0,
                        q.1,
                    );
                assert(stack_covers(s.spec_stack(), q.0, q.1));
                assert(s.cells()[q.0][q.1] == CELL_UNAVAILABLE);
                assert(s.cells()[q.0][q.1] == CELL_OCCUPIED);
            }
        }
    }
    lemma_len_disjoint_union(b, cov);
    let used = b.union(cov);
    let free_cells = grid_all.difference(used);
    assert(used.intersect(free_cells) =~= Set::empty());
    lemma_len_disjoint_union(used, free_cells);
    assert(used.union(free_cells) =~= grid_all);
    lemma_placement_cell_set_len(p);
    assert(placement_cell_set(p).subset_of(free_cells)) by {
        assert forall|q: (int, int)| placement_cell_set(p).contains(q) implies free_cells.contains(
            q,
        ) by {
            let i = choose|i: int|
                0 <= i < 4 && #[trigger] p.cell_row(i) == q.0 && p.cell_col(i) == q.1;
            assert(s.cells()[q.0][q.1] == CELL_EMPTY);
            assert(grid_all.contains(q));
            if b.contains(q) {
                assert(s.cells()[q.0][q.1] == CELL_UNAVAILABLE);
            }
            if cov.contains(q) {
                assert(stack_covers(s.spec_stack(), q.0, q.1));
                assert(s.cells()[q.0][q.1] == CELL_OCCUPIED);
            }
        }
    }
    lemma_len_subset(placement_cell_set(p), free_cells);
}

impl RecursionState {
    /// Marks the placement's cells occupied and pushes it on the stack. The
    /// four covered cells must currently be empty; the caller establishes
    /// this by construction of the placement.
    pub fn fill_and_push(&mut self, tetra: PlacedTetraInBoundaries)
        requires
            old(self).wf(),
            tetra.wf(),
            tetra.cells_within(old(self).spec_bounds()),
            from_catalog(tetra),
            forall|i: int|
                0 <= i < 4 ==> old(self).cells()[#[trigger] tetra.cell_row(i)][tetra.cell_col(i)]
                    == CELL_EMPTY,
        ensures
            final(self).wf(),
            old(self).same_setup(*final(self)),
            final(self).spec_results() == old(self).spec_results(),
            final(self).spec_stack() == old(self).spec_stack().push(tetra),
            final(self).spec_free() == old(self).spec_free() - 4,
            forall|r: int, c: int|
                #![trigger final(self).cells()[r][c]]
                0 <= r < old(self).spec_rows() && 0 <= c < old(self).spec_cols()
                    ==> final(self).cells()[r][c] == if placement_covers(tetra, r, c) {
                    CELL_OCCUPIED
                } else {
                    old(self).cells()[r][c]
                },
    {
        proof {
            lemma_free_lower_bound(*self, tetra);
        }
        let ghost pre = *self;
        self.set_covered(&tetra, CELL_OCCUPIED);
        self.how_many_free = self.how_many_free - 4;
        self.stack.push(tetra);
        if self.fills_since_refresh >= 3 {
            self.fills_since_refresh = 0;
            proof {
                assert(self.dims_ok());
            }
            self.refresh_cache();
            proof {
                assert forall|r: int, c: int|
                    0 <= r < pre.spec_rows() && 0 <= c < pre.spec_cols() && self.cells()[r][c]
                        == CELL_EMPTY implies #[trigger] seq_cache_has(
                    self.spec_cache(),
                    r,
                    c,
                ) by {}
            }
        } else {
            self.fills_since_refresh = self.fills_since_refresh + 1;
            proof {
                assert forall|r: int, c: int|
                    0 <= r < pre.spec_rows() && 0 <= c < pre.spec_cols() && self.cells()[r][c]
                        == CELL_EMPTY implies #[trigger] seq_cache_has(
                    self.spec_cache(),
                    r,
                    c,
                ) by {
                    if placement_covers(tetra, r, c) {
                        assert(self.cells()[r][c] == CELL_OCCUPIED);
                    } else {
                        assert(self.cells()[r][c] == pre.cells()[r][c]);
                        assert(seq_cache_has(pre.spec_cache(), r, c));
                    }
                }
            }
        }
        proof {
            self.lemma_fill_wf(pre, tetra);
        }
    }

    /// The invariant survives a fill.
    proof fn lemma_fill_wf(&self, pre: Self, tetra: PlacedTetraInBoundaries)
        requires
            pre.wf(),
            tetra.wf(),
            tetra.cells_within(pre.spec_bounds()),
            from_catalog(tetra),
            forall|i: int|
                0 <= i < 4 ==> pre.cells()[#[trigger] tetra.cell_row(i)][tetra.cell_col(i)]
                    == CELL_EMPTY,
            pre.same_setup(*self),
            self.results@ == pre.results@,
            self.stack@ == pre.stack@.push(tetra),
            self.how_many_free == pre.how_many_free - 4,
            self.cells().len() == pre.cells().len(),
            forall|r: int|
                0 <= r < pre.spec_rows() ==> (#[trigger] self.cells()[r]).len()
                    == pre.cells()[r].len(),
            forall|r: int, c: int|
                #![trigger self.cells()[r][c]]
                0 <= r < pre.spec_rows() && 0 <= c < pre.spec_cols() ==> self.cells()[r][c]
                    == if placement_covers(tetra, r, c) {
                    CELL_OCCUPIED
                } else {
                    pre.cells()[r][c]
                },
            forall|r: int, c: int|
                0 <= r < pre.spec_rows() && 0 <= c < pre.spec_cols() && self.cells()[r][c]
                    == CELL_EMPTY ==> #[trigger] seq_cache_has(self.spec_cache(), r, c),
            cache_sorted(self.spec_cache()),
        ensures
            self.wf(),
    {
        let n = pre.stack@.len() as int;
        assert forall|i: int| 0 <= i < 4 implies 0 <= #[trigger] tetra.cell_row(i)
            < pre.spec_rows() && 0 <= #[trigger] tetra.cell_col(i) < pre.spec_cols() by {
            assert(tetra.cells_within(pre.spec_bounds()));
            assert(0 <= tetra.cell_row(i) < pre.spec_bounds().rows);
            assert(0 <= tetra.cell_col(i) < pre.spec_bounds().cols);
        }
        // occupied cells match the new stack
        assert forall|r: int, c: int|
            #![trigger self.cells()[r][c]]
            0 <= r < self.spec_rows() && 0 <= c < self.spec_cols() implies (self.cells()[r][c]
            == CELL_OCCUPIED <==> stack_covers(self.spec_stack(), r, c)) by {
            if placement_covers(tetra, r, c) {
                assert(self.spec_stack()[n] == tetra);
                assert(stack_covers(self.spec_stack(), r, c));
            } else {
                if pre.cells()[r][c] == CELL_OCCUPIED {
                    let k = choose|k: int|
                        0 <= k < pre.stack@.len() && placement_covers(
                            #[trigger] pre.stack@[k],
                            r,
                            c,
                        );
                    assert(self.spec_stack()[k] == pre.stack@[k]);
                    assert(stack_covers(self.spec_stack(), r, c));
                } else {
                    if stack_covers(self.spec_stack(), r, c) {
                        let k = choose|k: int|
                            0 <= k < self.spec_stack().len() && placement_covers(
                                #[trigger] self.spec_stack()[k],
                                r,
                                c,
                            );
                        assert(k < n || k == n);
                        if k < n {
                            assert(pre.stack@[k] == self.spec_stack()[k]);
                            assert(stack_covers(pre.spec_stack(), r, c));
                            assert(pre.cells()[r][c] == CELL_OCCUPIED);
                        }
                        assert(false);
                    }
                }
            }
        }
        // other cell classifications are untouched
        assert forall|r: int, c: int|
            #![trigger self.cells()[r][c]]
            0 <= r < self.spec_rows() && 0 <= c < self.spec_cols() implies (self.cells()[r][c]
            == CELL_UNAVAILABLE <==> self.spec_blocked().contains((r, c))) by {
            if placement_covers(tetra, r, c) {
                assert(pre.cells()[r][c] == CELL_EMPTY) by {
                    let i = choose|i: int|
                        0 <= i < 4 && #[trigger] tetra.cell_row(i) == r && tetra.cell_col(i) == c;
                }
                assert(!pre.spec_blocked().contains((r, c)));
            }
        }
        // the new stack is well-formed and disjoint
        assert forall|k: int| 0 <= k < self.spec_stack().len() implies (
        #[trigger] self.spec_stack()[k]).wf() && self.spec_stack()[k].cells_within(
            self.spec_bounds(),
        ) && from_catalog(self.spec_stack()[k]) by {
            if k < n {
                assert(self.spec_stack()[k] == pre.spec_stack()[k]);
            } else {
                assert(self.spec_stack()[k] == tetra);
            }
        }
        assert forall|k1: int, k2: int, r: int, c: int|
            0 <= k1 < self.spec_stack().len() && 0 <= k2 < self.spec_stack().len() && k1 != k2
                && #[trigger] placement_covers(self.spec_stack()[k1], r, c) implies !#[trigger] placement_covers(
            self.spec_stack()[k2],
            r,
            c,
        ) by {
            if k1 < n && k2 < n {
                assert(self.spec_stack()[k1] == pre.spec_stack()[k1]);
                assert(self.spec_stack()[k2] == pre.spec_stack()[k2]);
            } else {
                let knew = if k1 == n { k1 } else { k2 };
                let kold = if k1 == n { k2 } else { k1 };
                assert(self.spec_stack()[knew] == tetra);
                assert(self.spec_stack()[kold] == pre.spec_stack()[kold]);
                if placement_covers(self.spec_stack()[k1], r, c) && placement_covers(
                    self.spec_stack()[k2],
                    r,
                    c,
                ) {
                    assert(placement_covers(tetra, r, c));
                    assert(placement_covers(pre.spec_stack()[kold], r, c));
                    assert(stack_covers(pre.spec_stack(), r, c));
                    let i = choose|i: int|
                        0 <= i < 4 && #[trigger] tetra.cell_row(i) == r && tetra.cell_col(i) == c;
                    assert(0 <= r < pre.spec_rows() && 0 <= c < pre.spec_cols());
                    assert(pre.cells()[r][c] == CELL_OCCUPIED);
                    assert(pre.cells()[r][c] == CELL_EMPTY);
                }
            }
        }
        // results stay valid: the setup fields they are judged against are unchanged
        assert forall|j: int| 0 <= j < self.spec_results().len() implies result_ok(
            self.spec_bounds(),
            self.spec_blocked(),
            self.spec_blocked_count(),
            #[trigger] self.spec_results()[j],
        ) by {
            assert(self.spec_results()[j] == pre.spec_results()[j]);
            assert(result_ok(
                pre.spec_bounds(),
                pre.spec_blocked(),
                pre.spec_blocked_count(),
                pre.spec_results()[j],
            ));
        }
    }

    /// Pops the newest placement and restores its four cells to empty. The
    /// strict push/pop pairing of the search makes this the exact inverse of
    /// the matching [`Self::fill_and_push`].
    pub fn pop_and_clear(&mut self)
        requires
            old(self).wf(),
            old(self).spec_stack().len() > 0,
        ensures
            final(self).wf(),
            old(self).same_setup(*final(self)),
            final(self).spec_results() == old(self).spec_results(),
            final(self).spec_stack() == old(self).spec_stack().drop_last(),
            final(self).spec_free() == old(self).spec_free() + 4,
            forall|r: int, c: int|
                #![trigger final(self).cells()[r][c]]
                0 <= r < old(self).spec_rows() && 0 <= c < old(self).spec_cols()
                    ==> final(self).cells()[r][c] == if placement_covers(
                    old(self).spec_stack().last(),
                    r,
                    c,
                ) {
                    CELL_EMPTY
                } else {
                    old(self).cells()[r][c]
                },
    {
        let ghost pre = *self;
        let placed_opt = self.stack.pop();
        proof {
            assert(placed_opt is Some);
            assert((pre.spec_stack()[pre.spec_stack().len() - 1]).wf());
            assert((pre.spec_stack()[pre.spec_stack().len() - 1]).cells_within(
                pre.spec_bounds(),
            ));
        }
        let placed = placed_opt.unwrap();
        self.set_covered(&placed, CELL_EMPTY);
        proof {
            assert(pre.spec_free() + 4 * pre.spec_stack().len() + pre.spec_blocked_count()
                == pre.spec_rows() * pre.spec_cols());
        }
        self.how_many_free = self.how_many_free + 4;
        proof {
            assert(self.dims_ok());
        }
        self.refresh_cache();
        proof {
            assert forall|r: int, c: int|
                0 <= r < pre.spec_rows() && 0 <= c < pre.spec_cols() && self.cells()[r][c]
                    == CELL_EMPTY implies #[trigger] seq_cache_has(self.spec_cache(), r, c) by {}
            self.lemma_pop_wf(pre, placed);
        }
    }

    /// The invariant survives an unfill.
    proof fn lemma_pop_wf(&self, pre: Self, placed: PlacedTetraInBoundaries)
        requires
            pre.wf(),
            pre.spec_stack().len() > 0,
            placed == pre.spec_stack().last(),
            pre.same_setup(*self),
            self.results@ == pre.results@,
            self.stack@ == pre.stack@.drop_last(),
            self.how_many_free == pre.how_many_free + 4,
            self.cells().len() == pre.cells().len(),
            forall|r: int|
                0 <= r < pre.spec_rows() ==> (#[trigger] self.cells()[r]).len()
                    == pre.cells()[r].len(),
            forall|r: int, c: int|
                #![trigger self.cells()[r][c]]
                0 <= r < pre.spec_rows() && 0 <= c < pre.spec_cols() ==> self.cells()[r][c]
                    == if placement_covers(placed, r, c) {
                    CELL_EMPTY
                } else {
                    pre.cells()[r][c]
                },
            forall|r: int, c: int|
                0 <= r < pre.spec_rows() && 0 <= c < pre.spec_cols() && self.cells()[r][c]
                    == CELL_EMPTY ==> #[trigger] seq_cache_has(self.spec_cache(), r, c),
            cache_sorted(self.spec_cache()),
        ensures
            self.wf(),
    {
        let n = pre.stack@.len() as int;
        assert(pre.spec_stack()[n - 1].wf());
        assert(pre.spec_stack()[n - 1].cells_within(pre.spec_bounds()));
        assert(placed.wf() && placed.cells_within(pre.spec_bounds()));
        assert forall|i: int| 0 <= i < 4 implies 0 <= #[trigger] placed.cell_row(i)
            < pre.spec_rows() && 0 <= #[trigger] placed.cell_col(i) < pre.spec_cols() by {
            assert(0 <= placed.cell_row(i) < pre.spec_bounds().rows);
            assert(0 <= placed.cell_col(i) < pre.spec_bounds().cols);
        }
        // occupied cells match the shortened stack
        assert forall|r: int, c: int|
            #![trigger self.cells()[r][c]]
            0 <= r < self.spec_rows() && 0 <= c < self.spec_cols() implies (self.cells()[r][c]
            == CELL_OCCUPIED <==> stack_covers(self.spec_stack(), r, c)) by {
            if placement_covers(placed, r, c) {
                if stack_covers(self.spec_stack(), r, c) {
                    let k = choose|k: int|
                        0 <= k < self.spec_stack().len() && placement_covers(
                            #[trigger] self.spec_stack()[k],
                            r,
                            c,
                        );
                    assert(self.spec_stack()[k] == pre.spec_stack()[k]);
                    assert(placement_covers(pre.spec_stack()[k], r, c));
                    assert(placement_covers(pre.spec_stack()[n - 1], r, c));
                    assert(false);
                }
            } else {
                assert(self.cells()[r][c] == pre.cells()[r][c]);
                if pre.cells()[r][c] == CELL_OCCUPIED {
                    let k = choose|k: int|
                        0 <= k < pre.spec_stack().len() && placement_covers(
                            #[trigger] pre.spec_stack()[k],
                            r,
                            c,
                        );
                    assert(k < n - 1);
                    assert(self.spec_stack()[k] == pre.spec_stack()[k]);
                    assert(stack_covers(self.spec_stack(), r, c));
                } else {
                    if stack_covers(self.spec_stack(), r, c) {
                        let k = choose|k: int|
                            0 <= k < self.spec_stack().len() && placement_covers(
                                #[trigger] self.spec_stack()[k],
                                r,
                                c,
                            );
                        assert(self.spec_stack()[k] == pre.spec_stack()[k]);
                        assert(stack_covers(pre.spec_stack(), r, c));
                        assert(pre.cells()[r][c] == CELL_OCCUPIED);
                        assert(false);
                    }
                }
            }
        }
        // blocked cells are untouched
        assert forall|r: int, c: int|
            #![trigger self.cells()[r][c]]
            0 <= r < self.spec_rows() && 0 <= c < self.spec_cols() implies (self.cells()[r][c]
            == CELL_UNAVAILABLE <==> self.spec_blocked().contains((r, c))) by {
            if placement_covers(placed, r, c) {
                assert(stack_covers(pre.spec_stack(), r, c));
                assert(pre.cells()[r][c] == CELL_OCCUPIED);
                assert(!pre.spec_blocked().contains((r, c)));
            }
        }
        // the shortened stack inherits well-formedness and disjointness
        assert forall|k: int| 0 <= k < self.spec_stack().len() implies (
        #[trigger] self.spec_stack()[k]).wf() && self.spec_stack()[k].cells_within(
            self.spec_bounds(),
        ) && from_catalog(self.spec_stack()[k]) by {
            assert(self.spec_stack()[k] == pre.spec_stack()[k]);
        }
        assert forall|k1: int, k2: int, r: int, c: int|
            0 <= k1 < self.spec_stack().len() && 0 <= k2 < self.spec_stack().len() && k1 != k2
                && #[trigger] placement_covers(self.spec_stack()[k1], r, c) implies !#[trigger] placement_covers(
            self.spec_stack()[k2],
            r,
            c,
        ) by {
            assert(self.spec_stack()[k1] == pre.spec_stack()[k1]);
            assert(self.spec_stack()[k2] == pre.spec_stack()[k2]);
        }
        // results stay valid against the unchanged setup
        assert forall|j: int| 0 <= j < self.spec_results().len() implies result_ok(
            self.spec_bounds(),
            self.spec_blocked(),
            self.spec_blocked_count(),
            #[trigger] self.spec_results()[j],
        ) by {
            assert(self.spec_results()[j] == pre.spec_results()[j]);
            assert(result_ok(
                pre.spec_bounds(),
                pre.spec_blocked(),
                pre.spec_blocked_count(),
                pre.spec_results()[j],
            ));
        }
    }
}

/// A shape can be placed at `pos` in state `s`: the placement lies inside
/// the grid and all four covered cells are empty.
/// Whether shape `sh` can be placed at `pos` on the given cells: it lies
/// inside `bounds` and its four covered cells are empty.
pub open spec fn can_place_shape(cells: Seq<Seq<u8>>, bounds: Size, sh: TetraShape, pos: Pos) -> bool {
    &&& crate::tetra::shape_fits(sh, pos, bounds)
    &&& forall|i: int|
        #![trigger crate::tetra::shape_cell_row(sh, pos, i)]
        0 <= i < 4 ==> cells[crate::tetra::shape_cell_row(sh, pos, i)][crate::tetra::shape_cell_col(
            sh,
            pos,
            i,
        )] == CELL_EMPTY
}

/// [`can_place_shape`] on a search state's own grid.
pub open spec fn spec_can_place(s: RecursionState, tetra: Tetra, pos: Pos) -> bool {
    can_place_shape(s.cells(), s.spec_bounds(), tetra@, pos)
}

/// The position with row-major index `i` on a grid of `cols` columns.
pub open spec fn pos_at_index(i: int, cols: int) -> Pos {
    Pos { row: (i / cols) as usize, col: (i % cols) as usize }
}

/// Row-major index and position are inverse to each other, and the index
/// order is the row-major order.
pub proof fn lemma_pos_index(bounds: Size, p: Pos)
    requires
        p.row < bounds.rows,
        p.col < bounds.cols,
    ensures
        0 <= p.row * bounds.cols + p.col < bounds.rows * bounds.cols,
        pos_at_index(p.row * bounds.cols + p.col, bounds.cols as int) == p,
{
    let idx = p.row * bounds.cols + p.col;
    assert(0 <= idx < bounds.rows * bounds.cols) by (nonlinear_arith)
        requires
            0 <= p.row < bounds.rows,
            0 <= p.col < bounds.cols,
            idx == p.row * bounds.cols + p.col,
    ;
    vstd::arithmetic::div_mod::lemma_fundamental_div_mod_converse(
        idx as int,
        bounds.cols as int,
        p.row as int,
        p.col as int,
    );
}

pub proof fn lemma_pos_index_order(bounds: Size, a: Pos, b: Pos)
    requires
        a.row < bounds.rows,
        a.col < bounds.cols,
        b.row < bounds.rows,
        b.col < bounds.cols,
    ensures
        pos_row_major_lt(a, b) <==> a.row * bounds.cols + a.col < b.row * bounds.cols + b.col,
{
    assert(pos_row_major_lt(a, b) <==> a.row * bounds.cols + a.col < b.row * bounds.cols
        + b.col) by (nonlinear_arith)
        requires
            0 <= a.row && 0 <= b.row,
            a.col < bounds.cols,
            b.col < bounds.cols,
            0 <= a.col && 0 <= b.col,
            pos_row_major_lt(a, b) == (a.row < b.row || (a.row == b.row && a.col < b.col)),
    ;
}

/// The first row-major position index at or after `i` where `sh` can be
/// placed; the grid's area if there is none.
pub open spec fn first_fit_from(cells: Seq<Seq<u8>>, bounds: Size, sh: TetraShape, i: int) -> int
    decreases bounds.rows * bounds.cols - i,
{
    if i < 0 || i >= bounds.rows * bounds.cols {
        bounds.rows * bounds.cols
    } else if can_place_shape(cells, bounds, sh, pos_at_index(i, bounds.cols as int)) {
        i
    } else {
        first_fit_from(cells, bounds, sh, i + 1)
    }
}

pub proof fn lemma_first_fit_from(cells: Seq<Seq<u8>>, bounds: Size, sh: TetraShape, i: int)
    requires
        0 <= i <= bounds.rows * bounds.cols,
    ensures
        i <= first_fit_from(cells, bounds, sh, i) <= bounds.rows * bounds.cols,
        first_fit_from(cells, bounds, sh, i) < bounds.rows * bounds.cols ==> can_place_shape(
            cells,
            bounds,
            sh,
            pos_at_index(first_fit_from(cells, bounds, sh, i), bounds.cols as int),
        ),
        forall|j: int|
            i <= j < first_fit_from(cells, bounds, sh, i) ==> !can_place_shape(
                cells,
                bounds,
                sh,
                pos_at_index(j, bounds.cols as int),
            ),
    decreases bounds.rows * bounds.cols - i,
{
    if i < bounds.rows * bounds.cols && !can_place_shape(
        cells,
        bounds,
        sh,
        pos_at_index(i, bounds.cols as int),
    ) {
        lemma_first_fit_from(cells, bounds, sh, i + 1);
    }
}

/// Whether shape `sh` anchored at `anchor` covers the cell `(r, c)`.
pub open spec fn shape_covers(sh: TetraShape, anchor: Pos, r: int, c: int) -> bool {
    exists|i: int|
        0 <= i < 4 && #[trigger] shape_cell_row(sh, anchor, i) == r && shape_cell_col(
            sh,
            anchor,
            i,
        ) == c
}

/// The cells after placing `sh` at `anchor`: its four cells become
/// occupied, everything else is unchanged.
pub open spec fn cells_fill_shape(cells: Seq<Seq<u8>>, sh: TetraShape, anchor: Pos) -> Seq<
    Seq<u8>,
> {
    Seq::new(
        cells.len(),
        |r: int|
            Seq::new(
                cells[r].len(),
                |c: int|
                    if shape_covers(sh, anchor, r, c) {
                        CELL_OCCUPIED
                    } else {
                        cells[r][c]
                    },
            ),
    )
}

/// A placement stack as shape/anchor pairs.
pub open spec fn stack_view(ps: Seq<PlacedTetraInBoundaries>) -> Seq<(TetraShape, Pos)> {
    ps.map_values(|p: PlacedTetraInBoundaries| (p.spec_placed().tetra@, p.spec_placed().position))
}

/// Accepted results as stack views with their leftover counts.
pub open spec fn results_views(rs: Seq<PlacementResult>) -> Seq<(Seq<(TetraShape, Pos)>, int)> {
    rs.map_values(|r: PlacementResult| (stack_view(r.placement@), r.free as int))
}

/// The exhaustive policy as a mathematical function: the sequence of
/// results, in acceptance order, of the depth-first search from the given
/// cells and stack. A node records the stack when the free count equals the
/// minimum remainder, then tries the shapes in catalog order, each at its
/// first fit in row-major order.
pub open spec fn spec_search(
    cells: Seq<Seq<u8>>,
    bounds: Size,
    minrem: int,
    stack: Seq<(TetraShape, Pos)>,
    free: nat,
) -> Seq<(Seq<(TetraShape, Pos)>, int)>
    decreases free, 20int,
{
    (if free == minrem {
        seq![(stack, free as int)]
    } else {
        Seq::empty()
    }) + spec_search_shapes(cells, bounds, minrem, stack, free, 0)
}

/// The concatenated results of the subtrees for the catalog shapes from
/// index `t` on.
pub open spec fn spec_search_shapes(
    cells: Seq<Seq<u8>>,
    bounds: Size,
    minrem: int,
    stack: Seq<(TetraShape, Pos)>,
    free: nat,
    t: int,
) -> Seq<(Seq<(TetraShape, Pos)>, int)>
    decreases free, TETRAS_COUNT - t,
{
    if t < 0 || t >= TETRAS_COUNT {
        Seq::empty()
    } else {
        let sh = spec_catalog()[t];
        let ff = first_fit_from(cells, bounds, sh, 0);
        let rest = spec_search_shapes(cells, bounds, minrem, stack, free, t + 1);
        if ff < bounds.rows * bounds.cols && free >= 4 {
            let anchor = pos_at_index(ff, bounds.cols as int);
            spec_search(
                cells_fill_shape(cells, sh, anchor),
                bounds,
                minrem,
                stack.push((sh, anchor)),
                (free - 4) as nat,
            ) + rest
        } else {
            rest
        }
    }
}

/// The grid a configuration starts from: blocked cells unavailable,
/// everything else empty.
pub open spec fn init_cells(cfg: Configuration) -> Seq<Seq<u8>> {
    Seq::new(
        cfg.spec_size().rows as nat,
        |r: int|
            Seq::new(
                cfg.spec_size().cols as nat,
                |c: int|
                    if cfg.blocked_set().contains((r, c)) {
                        CELL_UNAVAILABLE
                    } else {
                        CELL_EMPTY
                    },
            ),
    )
}

/// What the exhaustive policy returns for a configuration: the depth-first
/// enumeration from the initial grid with an empty stack.
pub open spec fn spec_exhaustive_results(cfg: Configuration) -> Seq<(Seq<(TetraShape, Pos)>, int)> {
    spec_search(
        init_cells(cfg),
        cfg.spec_size(),
        cfg.min_remainder(),
        Seq::empty(),
        (cfg.spec_size().rows * cfg.spec_size().cols - cfg.blocked_total()) as nat,
    )
}

proof fn lemma_pos_at_index(bounds: Size, i: int)
    requires
        0 <= i < bounds.rows * bounds.cols,
        bounds.cols >= 1,
    ensures
        pos_at_index(i, bounds.cols as int).row < bounds.rows,
        pos_at_index(i, bounds.cols as int).col < bounds.cols,
        pos_at_index(i, bounds.cols as int).row * bounds.cols + pos_at_index(
            i,
            bounds.cols as int,
        ).col == i,
{
    let cols = bounds.cols as int;
    vstd::arithmetic::div_mod::lemma_fundamental_div_mod(i, cols);
    assert(0 <= i / cols && 0 <= i % cols < cols);
    assert(i / cols < bounds.rows) by (nonlinear_arith)
        requires
            i == (i / cols) * cols + i % cols,
            0 <= i % cols < cols,
            i < bounds.rows * bounds.cols,
            cols == bounds.cols,
            0 <= i / cols,
            cols >= 1,
    ;
}

/// A placement covers exactly the cells its shape covers at its anchor.
proof fn lemma_covers_eq(p: PlacedTetraInBoundaries, sh: TetraShape, anchor: Pos, r: int, c: int)
    requires
        p.spec_placed().tetra@ == sh,
        p.spec_placed().position == anchor,
    ensures
        placement_covers(p, r, c) <==> shape_covers(sh, anchor, r, c),
{
    if placement_covers(p, r, c) {
        let i = choose|i: int| 0 <= i < 4 && #[trigger] p.cell_row(i) == r && p.cell_col(i) == c;
        assert(shape_cell_row(sh, anchor, i) == r && shape_cell_col(sh, anchor, i) == c);
    }
    if shape_covers(sh, anchor, r, c) {
        let i = choose|i: int|
            0 <= i < 4 && #[trigger] shape_cell_row(sh, anchor, i) == r && shape_cell_col(
                sh,
                anchor,
                i,
            ) == c;
        assert(p.cell_row(i) == r && p.cell_col(i) == c);
    }
}

proof fn lemma_stack_view_push(ps: Seq<PlacedTetraInBoundaries>, p: PlacedTetraInBoundaries)
    ensures
        stack_view(ps.push(p)) =~= stack_view(ps).push(
            (p.spec_placed().tetra@, p.spec_placed().position),
        ),
{
    assert forall|j: int| 0 <= j < ps.len() + 1 implies #[trigger] stack_view(ps.push(p))[j]
        == stack_view(ps).push((p.spec_placed().tetra@, p.spec_placed().position))[j] by {
        if j < ps.len() {
            assert(ps.push(p)[j] == ps[j]);
        } else {
            assert(ps.push(p)[j] == p);
        }
    }
}

proof fn lemma_results_views_push(rs: Seq<PlacementResult>, r: PlacementResult)
    ensures
        results_views(rs.push(r)) =~= results_views(rs).push(
            (stack_view(r.placement@), r.free as int),
        ),
{
    assert forall|j: int| 0 <= j < rs.len() + 1 implies #[trigger] results_views(rs.push(r))[j]
        == results_views(rs).push((stack_view(r.placement@), r.free as int))[j] by {
        if j < rs.len() {
            assert(rs.push(r)[j] == rs[j]);
        } else {
            assert(rs.push(r)[j] == r);
        }
    }
}

/// A catalog shape that can be placed at `q` has its anchor cell empty, so
/// `q` is named by the candidate cache.
proof fn lemma_fit_anchor_in_cache(s: RecursionState, t: int, q: Pos)
    requires
        s.wf(),
        0 <= t < TETRAS_COUNT,
        can_place_shape(s.cells(), s.spec_bounds(), spec_catalog()[t], q),
    ensures
        q.row < s.spec_rows(),
        q.col < s.spec_cols(),
        s.cells()[q.row as int][q.col as int] == CELL_EMPTY,
        seq_cache_has(s.spec_cache(), q.row as int, q.col as int),
{
    let sh = spec_catalog()[t];
    assert(s.catalog@[t].wf());
    assert(s.catalog@[t]@ == sh);
    assert(crate::tetra::shape_wf(sh));
    lemma_catalog_anchor_offset();
    assert(sh.offsets[0].row == 0 && sh.offsets[0].col == sh.shift);
    assert(shape_cell_row(sh, q, 0) == q.row);
    assert(shape_cell_col(sh, q, 0) == q.col);
    assert(s.cells()[q.row as int][q.col as int] == CELL_EMPTY);
    assert(shape_fits(sh, q, s.spec_bounds()));
    assert(q.row + sh.rows <= s.spec_rows() && sh.rows >= 1);
    assert(q.col + sh.cols - sh.shift <= s.spec_cols() && sh.shift < sh.cols);
}

impl RecursionState {
    /// Whether all four cells of an in-bounds placement are currently empty.
    fn covered_all_empty(&self, p: &PlacedTetraInBoundaries) -> (r: bool)
        requires
            self.wf(),
            p.wf(),
            p.cells_within(self.spec_bounds()),
        ensures
            r == forall|i: int|
                0 <= i < 4 ==> self.cells()[#[trigger] p.cell_row(i)][p.cell_col(i)]
                    == CELL_EMPTY,
    {
        let mut i: usize = 0;
        while i < 4
            invariant
                self.wf(),
                p.wf(),
                p.cells_within(self.spec_bounds()),
                i <= 4,
                forall|j: int|
                    0 <= j < i ==> self.cells()[#[trigger] p.cell_row(j)][p.cell_col(j)]
                        == CELL_EMPTY,
            decreases 4 - i,
        {
            let pos = p.covered_cell(i);
            proof {
                assert(0 <= p.cell_row(i as int) < self.spec_rows());
                assert(0 <= p.cell_col(i as int) < self.spec_cols());
            }
            if grid_get(&self.grid, pos.row, pos.col) != CELL_EMPTY {
                return false;
            }
            i = i + 1;
        }
        true
    }

    /// First-fit search: scans the candidate cache in order and returns the
    /// placement of `tetra` at the first position where it fits on empty
    /// cells, or nothing if no cached position admits it.
    pub fn find_any_fit_for(&self, tetra: &Tetra) -> (r: Option<PlacedTetraInBoundaries>)
        requires
            self.wf(),
            tetra.wf(),
            exists|t: int| 0 <= t < TETRAS_COUNT && tetra@ == #[trigger] spec_catalog()[t],
        ensures
            r matches Some(p) ==> {
                &&& p.wf()
                &&& p.spec_placed().tetra == *tetra
                &&& p.cells_within(self.spec_bounds())
                &&& from_catalog(p)
                &&& forall|i: int|
                    0 <= i < 4 ==> self.cells()[#[trigger] p.cell_row(i)][p.cell_col(i)]
                        == CELL_EMPTY
                &&& exists|j: int|
                    0 <= j < self.spec_cache().len() && #[trigger] self.spec_cache()[j]
                        == p.spec_placed().position && spec_can_place(
                        *self,
                        *tetra,
                        self.spec_cache()[j],
                    ) && forall|j2: int|
                        0 <= j2 < j ==> !spec_can_place(*self, *tetra, self.spec_cache()[j2])
            },
            r is None ==> forall|j: int|
                0 <= j < self.spec_cache().len() ==> !spec_can_place(
                    *self,
                    *tetra,
                    #[trigger] self.spec_cache()[j],
                ),
            r matches Some(p) ==> first_fit_from(self.cells(), self.spec_bounds(), (*tetra)@, 0)
                == p.spec_placed().position.row * self.spec_cols()
                + p.spec_placed().position.col,
            r is None ==> first_fit_from(self.cells(), self.spec_bounds(), (*tetra)@, 0)
                == self.spec_rows() * self.spec_cols(),
    {
        let boundaries = Size { rows: self.rows, cols: self.cols };
        let mut j: usize = 0;
        while j < self.positions_for_lookup.len()
            invariant
                self.wf(),
                tetra.wf(),
                exists|t: int| 0 <= t < TETRAS_COUNT && tetra@ == #[trigger] spec_catalog()[t],
                boundaries == self.spec_bounds(),
                j <= self.spec_cache().len(),
                forall|j2: int|
                    0 <= j2 < j ==> !spec_can_place(
                        *self,
                        *tetra,
                        #[trigger] self.spec_cache()[j2],
                    ),
            decreases self.spec_cache().len() - j,
        {
            let pos = self.positions_for_lookup[j];
            let placed = PlacedTetra::new(*tetra, pos);
            match PlacedTetraInBoundaries::in_boundaries(placed, boundaries) {
                Some(p) => {
                    if self.covered_all_empty(&p) {
                        proof {
                            assert(p.spec_placed() == placed);
                            assert(placed == (PlacedTetra { tetra: *tetra, position: pos }));
                            assert forall|i: int| 0 <= i < 4 implies self.cells()[#[trigger] shape_cell_row(
                                (*tetra)@,
                                pos,
                                i,
                            )][shape_cell_col((*tetra)@, pos, i)] == CELL_EMPTY by {
                                assert(p.cell_row(i) == shape_cell_row((*tetra)@, pos, i));
                                assert(p.cell_col(i) == shape_cell_col((*tetra)@, pos, i));
                                assert(self.cells()[p.cell_row(i)][p.cell_col(i)] == CELL_EMPTY);
                            }
                            assert(shape_fits((*tetra)@, pos, self.spec_bounds()));
                            assert(spec_can_place(*self, *tetra, pos));
                            assert(self.spec_cache()[j as int] == pos);
                            let t = choose|t: int|
                                0 <= t < TETRAS_COUNT && tetra@ == #[trigger] spec_catalog()[t];
                            let sh = (*tetra)@;
                            let cells0 = self.cells();
                            let bnd = self.spec_bounds();
                            let idx = pos.row * bnd.cols + pos.col;
                            lemma_fit_anchor_in_cache(*self, t, pos);
                            lemma_pos_index(bnd, pos);
                            lemma_first_fit_from(cells0, bnd, sh, 0);
                            let ff = first_fit_from(cells0, bnd, sh, 0);
                            assert(pos_at_index(idx, bnd.cols as int) == pos);
                            assert(can_place_shape(
                                cells0,
                                bnd,
                                sh,
                                pos_at_index(idx, bnd.cols as int),
                            ));
                            assert(ff <= idx);
                            if ff < idx {
                                let q = pos_at_index(ff, bnd.cols as int);
                                assert(can_place_shape(cells0, bnd, sh, q));
                                lemma_pos_at_index(bnd, ff);
                                lemma_fit_anchor_in_cache(*self, t, q);
                                assert(seq_cache_has(
                                    self.spec_cache(),
                                    q.row as int,
                                    q.col as int,
                                ));
                                let j3 = choose|j3: int|
                                    0 <= j3 < self.spec_cache().len() && (
                                    #[trigger] self.spec_cache()[j3]).row == q.row
                                        && self.spec_cache()[j3].col == q.col;
                                assert(self.spec_cache()[j3] == q);
                                lemma_pos_index_order(bnd, q, pos);
                                assert(q.row * bnd.cols + q.col == ff);
                                assert(pos_row_major_lt(q, pos));
                                assert(cache_sorted(self.spec_cache()));
                                if j3 >= j as int {
                                    if j3 == j as int {
                                        assert(q == pos);
                                    } else {
                                        assert(pos_row_major_lt(
                                            self.spec_cache()[j as int],
                                            self.spec_cache()[j3],
                                        ));
                                    }
                                    assert(false);
                                }
                                assert(!spec_can_place(*self, *tetra, self.spec_cache()[j3]));
                                assert(false);
                            }
                            assert(ff == idx);
                        }
                        return Some(p);
                    }
                    proof {
                        assert(p.spec_placed() == placed);
                        assert(placed == (PlacedTetra { tetra: *tetra, position: pos }));
                        if spec_can_place(*self, *tetra, pos) {
                            assert forall|i: int|
                                0 <= i < 4 implies self.cells()[#[trigger] p.cell_row(i)][p.cell_col(
                                i,
                            )] == CELL_EMPTY by {
                                assert(p.cell_row(i) == placed_cell_row(placed, i));
                                assert(p.cell_col(i) == placed_cell_col(placed, i));
                            }
                            assert(false);
                        }
                    }
                },
                None => {
                    proof {
                        assert(placed == (PlacedTetra { tetra: *tetra, position: pos }));
                        assert(!spec_can_place(*self, *tetra, pos));
                    }
                },
            }
            j = j + 1;
        }
        proof {
            let t = choose|t: int|
                0 <= t < TETRAS_COUNT && tetra@ == #[trigger] spec_catalog()[t];
            let sh = (*tetra)@;
            let cells0 = self.cells();
            let bnd = self.spec_bounds();
            lemma_first_fit_from(cells0, bnd, sh, 0);
            let ff = first_fit_from(cells0, bnd, sh, 0);
            if ff < bnd.rows * bnd.cols {
                let q = pos_at_index(ff, bnd.cols as int);
                assert(can_place_shape(cells0, bnd, sh, q));
                lemma_pos_at_index(bnd, ff);
                lemma_fit_anchor_in_cache(*self, t, q);
                assert(seq_cache_has(self.spec_cache(), q.row as int, q.col as int));
                let j3 = choose|j3: int|
                    0 <= j3 < self.spec_cache().len() && (#[trigger] self.spec_cache()[j3]).row
                        == q.row && self.spec_cache()[j3].col == q.col;
                assert(self.spec_cache()[j3] == q);
                assert(!spec_can_place(*self, *tetra, self.spec_cache()[j3]));
                assert(false);
            }
        }
        None
    }

    /// How many cells are currently empty.
    pub fn how_many_free(&self) -> (r: usize)
        ensures
            r == self.spec_free(),
    {
        self.how_many_free
    }

    /// The candidate positions the engine currently probes, in order.
    pub fn positions_for_lookup(&self) -> (r: &Vec<Pos>)
        ensures
            r@ == self.spec_cache(),
    {
        &self.positions_for_lookup
    }

    /// How many placements are on the active stack.
    pub fn stack_len(&self) -> (r: usize)
        ensures
            r == self.spec_stack().len(),
    {
        self.stack.len()
    }

    /// The classification of one grid square.
    pub fn cell_at(&self, pos: Pos) -> (r: Cell)
        requires
            self.wf(),
            pos.row < self.spec_rows(),
            pos.col < self.spec_cols(),
        ensures
            r.spec_code() == self.cells()[pos.row as int][pos.col as int],
    {
        let code = grid_get(&self.grid, pos.row, pos.col);
        Cell::from_code(code)
    }
}

impl SizeOf for RecursionState {
    fn size_of(&self) -> Size {
        Size { rows: self.rows, cols: self.cols }
    }
}

impl crate::util::PosInGrid<Cell> for RecursionState {
    open spec fn pos_in_bounds(&self, pos: Pos) -> bool {
        self.wf() && pos.row < self.spec_rows() && pos.col < self.spec_cols()
    }

    open spec fn pos_value(&self, pos: Pos) -> Cell {
        if self.cells()[pos.row as int][pos.col as int] == CELL_UNAVAILABLE {
            Cell::Unavailable
        } else if self.cells()[pos.row as int][pos.col as int] == CELL_OCCUPIED {
            Cell::Occupied
        } else {
            Cell::Empty
        }
    }

    fn pos(&self, pos: &Pos) -> (r: Cell) {
        self.cell_at(*pos)
    }
}

impl RecursionState {
    /// The invariant's grid, stack and cache clauses depend only on these
    /// fields; re-establish them across updates of the remaining ones.
    proof fn lemma_wf_core(a: Self, b: Self)
        requires
            a.wf(),
            b.grid == a.grid,
            b.rows == a.rows,
            b.cols == a.cols,
            b.how_many_free == a.how_many_free,
            b.initially_unavailable == a.initially_unavailable,
            b.min_free_cells == a.min_free_cells,
            b.acceptance_threshold == a.acceptance_threshold,
            b.catalog@ == a.catalog@,
            b.stack@ == a.stack@,
            b.positions_for_lookup@ == a.positions_for_lookup@,
            b.blocked@ == a.blocked@,
        ensures
            b.dims_ok(),
            b.cell_states_ok(),
            b.stack_ok(),
            b.counts_ok(),
            b.cache_ok(),
            b.cache_order_ok(),
            b.catalog_ok(),
            b.thresholds_ok(),
    {
        assert(b.cells() == a.cells());
        assert(b.spec_stack() == a.spec_stack());
        assert(b.spec_cache() == a.spec_cache());
        assert(b.spec_blocked() == a.spec_blocked());
        assert(b.spec_bounds() == a.spec_bounds());
    }

    /// Accepted results stay valid across updates that keep the setup
    /// fields and the results themselves.
    proof fn lemma_wf_results(a: Self, b: Self)
        requires
            a.wf(),
            b.rows == a.rows,
            b.cols == a.cols,
            b.initially_unavailable == a.initially_unavailable,
            b.results_limit == a.results_limit,
            b.results@ == a.results@,
            b.blocked@ == a.blocked@,
        ensures
            b.results_ok(),
            b.limit_ok(),
    {
        assert(b.spec_results() == a.spec_results());
        assert forall|j: int| 0 <= j < b.spec_results().len() implies result_ok(
            b.spec_bounds(),
            b.spec_blocked(),
            b.spec_blocked_count(),
            #[trigger] b.spec_results()[j],
        ) by {
            assert(result_ok(
                a.spec_bounds(),
                a.spec_blocked(),
                a.spec_blocked_count(),
                a.spec_results()[j],
            ));
        }
    }
}

/// `b` extends `a`: every result already accepted stays, in order.
spec fn extends_results(a: Seq<PlacementResult>, b: Seq<PlacementResult>) -> bool {
    &&& b.len() >= a.len()
    &&& forall|j: int| 0 <= j < a.len() ==> a[j] == #[trigger] b[j]
}

impl RecursionState {
    /// Records the current placement stack as an accepted result, with the
    /// current free-cell count as its leftover.
    fn push_result(&mut self)
        requires
            old(self).wf(),
            match old(self).spec_limit() {
                Some(l) => old(self).spec_results().len() < l,
                None => true,
            },
        ensures
            final(self).wf(),
            old(self).same_setup(*final(self)),
            final(self).cells() == old(self).cells(),
            final(self).spec_stack() == old(self).spec_stack(),
            final(self).spec_free() == old(self).spec_free(),
            final(self).spec_cache() == old(self).spec_cache(),
            final(self).spec_results().len() == old(self).spec_results().len() + 1,
            forall|j: int|
                0 <= j < old(self).spec_results().len() ==> old(self).spec_results()[j]
                    == #[trigger] final(self).spec_results()[j],
            final(self).spec_results().last().placement@ == old(self).spec_stack(),
            final(self).spec_results().last().free == old(self).spec_free(),
    {
        let ghost pre = *self;
        let mut placement: Vec<PlacedTetraInBoundaries> = Vec::new();
        let mut i: usize = 0;
        while i < self.stack.len()
            invariant
                i <= self.stack@.len(),
                *self == pre,
                placement@ == pre.stack@.subrange(0, i as int),
            decreases self.stack@.len() - i,
        {
            let entry = self.stack[i];
            placement.push(entry);
            proof {
                assert(placement@ =~= pre.stack@.subrange(0, i + 1));
            }
            i = i + 1;
        }
        proof {
            assert(placement@ =~= pre.stack@);
        }
        let free = self.how_many_free;
        let result = PlacementResult { placement, free };
        proof {
            assert forall|k: int, r: int, c: int|
                0 <= k < result.placement@.len() && #[trigger] placement_covers(
                    result.placement@[k],
                    r,
                    c,
                ) implies !pre.spec_blocked().contains((r, c)) by {
                let p = result.placement@[k];
                assert(p == pre.spec_stack()[k]);
                let i2 = choose|i2: int|
                    0 <= i2 < 4 && #[trigger] p.cell_row(i2) == r && p.cell_col(i2) == c;
                assert(p.cells_within(pre.spec_bounds()));
                assert(0 <= r < pre.spec_rows() && 0 <= c < pre.spec_cols());
                assert(stack_covers(pre.spec_stack(), r, c));
                assert(pre.cells()[r][c] == CELL_OCCUPIED);
            }
            assert(result_ok(
                pre.spec_bounds(),
                pre.spec_blocked(),
                pre.spec_blocked_count(),
                result,
            ));
        }
        self.results.push(result);
        proof {
            Self::lemma_wf_core(pre, *self);
            assert forall|j: int| 0 <= j < self.spec_results().len() implies result_ok(
                self.spec_bounds(),
                self.spec_blocked(),
                self.spec_blocked_count(),
                #[trigger] self.spec_results()[j],
            ) by {
                if j < pre.spec_results().len() {
                    assert(self.spec_results()[j] == pre.spec_results()[j]);
                    assert(result_ok(
                        pre.spec_bounds(),
                        pre.spec_blocked(),
                        pre.spec_blocked_count(),
                        pre.spec_results()[j],
                    ));
                } else {
                    assert(self.spec_results()[j] == result);
                }
            }
        }
    }

    /// Exhaustive policy: shapes in catalog order, a result at every node
    /// whose free-cell count equals the minimum remainder, no early stop.
    #[verifier::loop_isolation(false)]
    fn run_exhaustive<S: CollectStats>(&mut self, stats: &mut S)
        requires
            old(self).wf(),
            old(self).spec_limit() is None,
        ensures
            final(self).wf(),
            old(self).same_setup(*final(self)),
            final(self).cells() == old(self).cells(),
            final(self).spec_stack() == old(self).spec_stack(),
            final(self).spec_free() == old(self).spec_free(),
            extends_results(old(self).spec_results(), final(self).spec_results()),
            forall|j: int|
                old(self).spec_results().len() <= j < final(self).spec_results().len()
                    ==> (#[trigger] final(self).spec_results()[j]).free == old(
                    self,
                ).spec_min_free(),
            results_views(final(self).spec_results()) == results_views(old(self).spec_results())
                + spec_search(
                old(self).cells(),
                old(self).spec_bounds(),
                old(self).spec_min_free(),
                stack_view(old(self).spec_stack()),
                old(self).spec_free() as nat,
            ),
        decreases old(self).how_many_free,
    {
        stats.recursions_inc();
        let ghost cells0 = self.cells();
        let ghost bnd = self.spec_bounds();
        let ghost minrem0 = self.spec_min_free();
        let ghost sv0 = stack_view(self.spec_stack());
        let ghost free0 = self.spec_free() as nat;
        let ghost full = spec_search(cells0, bnd, minrem0, sv0, free0);
        let ghost res0 = self.spec_results();
        let ghost inv_rhs = results_views(res0) + full;

        if self.how_many_free == self.min_free_cells {
            self.push_result();
            stats.results_inc();
            proof {
                let rec = self.spec_results().last();
                assert(self.spec_results() =~= res0.push(rec));
                lemma_results_views_push(res0, rec);
                assert(stack_view(rec.placement@) == sv0);
                assert(results_views(self.spec_results()) == results_views(res0).push(
                    (sv0, free0 as int),
                ));
            }
        }
        proof {
            let ss0 = spec_search_shapes(cells0, bnd, minrem0, sv0, free0, 0);
            if free0 == minrem0 {
                assert(full == seq![(sv0, free0 as int)] + ss0);
                assert(results_views(res0).push((sv0, free0 as int)) =~= results_views(res0)
                    + seq![(sv0, free0 as int)]);
                assert((results_views(res0) + seq![(sv0, free0 as int)]) + ss0 =~= results_views(
                    res0,
                ) + (seq![(sv0, free0 as int)] + ss0));
                assert(results_views(self.spec_results()) + ss0 == inv_rhs);
            } else {
                assert(full == Seq::<(Seq<(TetraShape, Pos)>, int)>::empty() + ss0);
                assert(Seq::<(Seq<(TetraShape, Pos)>, int)>::empty() + ss0 =~= ss0);
                assert(results_views(self.spec_results()) + ss0 == inv_rhs);
            }
        }
        let ghost snap = *self;
        proof {
            assert(snap.cells() == cells0);
            assert(stack_view(snap.spec_stack()) == sv0);
        }
        let mut t: usize = 0;
        while t < TETRAS_COUNT
            invariant
                self.wf(),
                snap.same_setup(*self),
                self.spec_limit() is None,
                self.cells() == snap.cells(),
                self.spec_stack() == snap.spec_stack(),
                self.spec_free() == snap.spec_free(),
                self.spec_free() == old(self).spec_free(),
                extends_results(old(self).spec_results(), self.spec_results()),
                forall|j: int|
                    old(self).spec_results().len() <= j < self.spec_results().len()
                        ==> (#[trigger] self.spec_results()[j]).free == old(
                        self,
                    ).spec_min_free(),
                results_views(self.spec_results()) + spec_search_shapes(
                    cells0,
                    bnd,
                    minrem0,
                    sv0,
                    free0,
                    t as int,
                ) == inv_rhs,
            decreases TETRAS_COUNT - t,
        {
            let tetra = self.catalog[t];
            proof {
                assert(tetra@ == spec_catalog()[t as int]);
            }
            let fit = self.find_any_fit_for(&tetra);
            match fit {
                Some(p) => {
                    let ghost sh = tetra@;
                    let ghost anchor = p.spec_placed().position;
                    let ghost idx = anchor.row * bnd.cols + anchor.col;
                    let ghost child = spec_search(
                        cells_fill_shape(cells0, sh, anchor),
                        bnd,
                        minrem0,
                        sv0.push((sh, anchor)),
                        (free0 - 4) as nat,
                    );
                    proof {
                        assert(self.spec_bounds() == bnd);
                        assert(first_fit_from(cells0, bnd, sh, 0) == idx);
                        let j4 = choose|j4: int|
                            0 <= j4 < self.spec_cache().len() && #[trigger] self.spec_cache()[j4]
                                == p.spec_placed().position && spec_can_place(
                                *self,
                                tetra,
                                self.spec_cache()[j4],
                            ) && (forall|j2: int|
                                0 <= j2 < j4 ==> !spec_can_place(
                                    *self,
                                    tetra,
                                    self.spec_cache()[j2],
                                ));
                        assert(can_place_shape(cells0, bnd, sh, anchor));
                        lemma_fit_anchor_in_cache(*self, t as int, anchor);
                        lemma_pos_index(bnd, anchor);
                        assert(0 <= idx < bnd.rows * bnd.cols);
                        assert(pos_at_index(idx, bnd.cols as int) == anchor);
                        lemma_free_lower_bound(*self, p);
                        assert(free0 >= 4);
                        assert(spec_search_shapes(cells0, bnd, minrem0, sv0, free0, t as int)
                            == child + spec_search_shapes(
                            cells0,
                            bnd,
                            minrem0,
                            sv0,
                            free0,
                            t as int + 1,
                        ));
                    }
                    let ghost before_fill = *self;
                    self.fill_and_push(p);
                    proof {
                        assert forall|r: int|
                            0 <= r < bnd.rows implies #[trigger] self.cells()[r]
                            =~= cells_fill_shape(cells0, sh, anchor)[r] by {
                            assert forall|c: int|
                                0 <= c < bnd.cols implies self.cells()[r][c] == cells_fill_shape(
                                cells0,
                                sh,
                                anchor,
                            )[r][c] by {
                                lemma_covers_eq(p, sh, anchor, r, c);
                            }
                        }
                        assert(self.cells() =~~= cells_fill_shape(cells0, sh, anchor));
                        lemma_stack_view_push(before_fill.spec_stack(), p);
                        assert(stack_view(self.spec_stack()) == sv0.push((sh, anchor)));
                        assert(self.spec_free() as nat == (free0 - 4) as nat);
                    }
                    let ghost mid_res = self.spec_results();
                    self.run_exhaustive(stats);
                    proof {
                        assert(results_views(self.spec_results()) == results_views(mid_res)
                            + child);
                    }
                    self.pop_and_clear();
                    proof {
                        assert(self.spec_stack() =~= before_fill.spec_stack());
                        assert forall|r: int|
                            0 <= r < self.spec_rows() implies #[trigger] self.cells()[r]
                            =~= before_fill.cells()[r] by {
                            assert forall|c: int|
                                0 <= c < self.spec_cols() implies self.cells()[r][c]
                                == before_fill.cells()[r][c] by {
                                if placement_covers(p, r, c) {
                                    assert(before_fill.cells()[r][c] == CELL_EMPTY);
                                }
                            }
                        }
                        assert(self.cells() =~~= before_fill.cells());
                        assert(mid_res == before_fill.spec_results());
                        assert((results_views(before_fill.spec_results()) + child)
                            + spec_search_shapes(cells0, bnd, minrem0, sv0, free0, t as int + 1)
                            =~= results_views(before_fill.spec_results()) + (child
                        + spec_search_shapes(cells0, bnd, minrem0, sv0, free0, t as int + 1)));
                        assert(results_views(self.spec_results()) + spec_search_shapes(
                            cells0,
                            bnd,
                            minrem0,
                            sv0,
                            free0,
                            t as int + 1,
                        ) == inv_rhs);
                    }
                },
                None => {
                    proof {
                        assert(self.spec_bounds() == bnd);
                        assert(first_fit_from(cells0, bnd, tetra@, 0) == bnd.rows * bnd.cols);
                        assert(spec_search_shapes(cells0, bnd, minrem0, sv0, free0, t as int)
                            == spec_search_shapes(cells0, bnd, minrem0, sv0, free0, t as int + 1));
                    }
                },
            }
            t = t + 1;
        }
        proof {
            assert(spec_search_shapes(cells0, bnd, minrem0, sv0, free0, TETRAS_COUNT as int)
                == Seq::<(Seq<(TetraShape, Pos)>, int)>::empty());
            assert(results_views(self.spec_results()) + Seq::<
                (Seq<(TetraShape, Pos)>, int),
            >::empty() =~= results_views(self.spec_results()));
            assert(results_views(self.spec_results()) == inv_rhs);
        }
    }

    /// Randomized bounded policy: a reshuffled catalog order at every call,
    /// acceptance only at dead ends below the threshold, and a halt signal
    /// that propagates synchronously once the cap is reached.
    #[verifier::loop_isolation(false)]
    fn run_sampled<S: CollectStats>(&mut self, stats: &mut S) -> (halt: bool)
        requires
            old(self).wf(),
            old(self).spec_limit() matches Some(l) && old(self).spec_results().len() < l,
        ensures
            final(self).wf(),
            old(self).same_setup(*final(self)),
            extends_results(old(self).spec_results(), final(self).spec_results()),
            forall|j: int|
                old(self).spec_results().len() <= j < final(self).spec_results().len()
                    ==> (#[trigger] final(self).spec_results()[j]).free < old(
                    self,
                ).spec_threshold(),
            old(self).spec_limit() matches Some(l) ==> {
                &&& final(self).spec_results().len() <= l
                &&& (halt <==> final(self).spec_results().len() == l)
            },
            !halt ==> {
                &&& final(self).cells() == old(self).cells()
                &&& final(self).spec_stack() == old(self).spec_stack()
                &&& final(self).spec_free() == old(self).spec_free()
            },
        decreases old(self).how_many_free,
    {
        stats.recursions_inc();
        let mut was_any_fit = false;
        let order = self.random_tetras.finite_iter();
        proof {
            Self::lemma_wf_core(*old(self), *self);
            Self::lemma_wf_results(*old(self), *self);
            assert(self.wf());
        }
        let ghost snap = *self;
        let mut t: usize = 0;
        while t < order.len()
            invariant
                self.wf(),
                snap.same_setup(*self),
                order@.len() == TETRAS_COUNT,
                forall|j: int| 0 <= j < order@.len() ==> #[trigger] order@[j] < TETRAS_COUNT,
                self.spec_limit() == old(self).spec_limit(),
                self.cells() == snap.cells(),
                self.spec_stack() == snap.spec_stack(),
                self.spec_free() == snap.spec_free(),
                self.spec_free() == old(self).spec_free(),
                extends_results(old(self).spec_results(), self.spec_results()),
                forall|j: int|
                    old(self).spec_results().len() <= j < self.spec_results().len()
                        ==> (#[trigger] self.spec_results()[j]).free < old(
                        self,
                    ).spec_threshold(),
                old(self).spec_limit() matches Some(l) && self.spec_results().len() < l,
            decreases order@.len() - t,
        {
            let tetra = self.catalog[order[t]];
            proof {
                assert(tetra@ == spec_catalog()[order@[t as int] as int]);
            }
            let fit = self.find_any_fit_for(&tetra);
            if let Some(p) = fit {
                was_any_fit = true;
                let ghost before_fill = *self;
                self.fill_and_push(p);
                let halted = self.run_sampled(stats);
                if halted {
                    return true;
                }
                self.pop_and_clear();
                proof {
                    assert(self.spec_stack() =~= before_fill.spec_stack());
                    assert forall|r: int|
                        0 <= r < self.spec_rows() implies #[trigger] self.cells()[r]
                        =~= before_fill.cells()[r] by {
                        assert forall|c: int| 0 <= c < self.spec_cols() implies self.cells()[r][c]
                            == before_fill.cells()[r][c] by {
                            if placement_covers(p, r, c) {
                                assert(before_fill.cells()[r][c] == CELL_EMPTY);
                            }
                        }
                    }
                    assert(self.cells() =~~= before_fill.cells());
                }
            }
            t = t + 1;
        }
        if !was_any_fit && self.how_many_free < self.acceptance_threshold {
            self.push_result();
            stats.results_inc();
            if let Some(limit) = self.results_limit {
                if self.results.len() == limit {
                    return true;
                }
            }
        }
        false
    }

    /// Runs the policy the configuration selects and hands back the accepted
    /// results, in acceptance order.
    pub fn find_placements<S: CollectStats>(cfg: &Configuration, stats: &mut S) -> (results: Vec<
        PlacementResult,
    >)
        requires
            cfg.wf(),
        ensures
            forall|j: int|
                0 <= j < results@.len() ==> config_result_ok(*cfg, #[trigger] results@[j]),
            match cfg.spec_results_limit() {
                Some(l) => results@.len() <= l && forall|j: int|
                    0 <= j < results@.len() ==> (#[trigger] results@[j]).free
                        < cfg.acceptance_threshold(),
                None => forall|j: int|
                    0 <= j < results@.len() ==> (#[trigger] results@[j]).free
                        == cfg.min_remainder(),
            },
            cfg.spec_results_limit() is None ==> results_views(results@)
                == spec_exhaustive_results(*cfg),
    {
        let mut recursion = Self::with_configuration(cfg);
        let ghost fresh = recursion;
        if recursion.results_limit.is_none() {
            recursion.run_exhaustive(stats);
            proof {
                let rows = cfg.spec_size().rows as int;
                let cols = cfg.spec_size().cols as int;
                assert(fresh.cells().len() == rows && init_cells(*cfg).len() == rows);
                assert forall|r: int| 0 <= r < rows implies #[trigger] fresh.cells()[r]
                    =~= init_cells(*cfg)[r] by {
                    assert(fresh.cells()[r].len() == cols);
                    assert(init_cells(*cfg)[r].len() == cols);
                    assert forall|c: int| 0 <= c < cols implies fresh.cells()[r][c] == init_cells(
                        *cfg,
                    )[r][c] by {
                        assert(fresh.cells()[r][c] == (if cfg.blocked_set().contains((r, c)) {
                            CELL_UNAVAILABLE
                        } else {
                            CELL_EMPTY
                        }));
                    }
                }
                assert(fresh.cells() =~~= init_cells(*cfg));
                assert(stack_view(fresh.spec_stack()) =~= Seq::<(TetraShape, Pos)>::empty());
                assert(results_views(fresh.spec_results()) =~= Seq::<
                    (Seq<(TetraShape, Pos)>, int),
                >::empty());
                assert(fresh.spec_bounds() == cfg.spec_size());
                assert(fresh.spec_min_free() == cfg.min_remainder());
                assert(fresh.spec_free() as nat == (cfg.spec_size().rows * cfg.spec_size().cols
                    - cfg.blocked_total()) as nat);
                assert(Seq::<(Seq<(TetraShape, Pos)>, int)>::empty() + spec_exhaustive_results(
                    *cfg,
                ) =~= spec_exhaustive_results(*cfg));
                assert(results_views(recursion.spec_results()) == spec_exhaustive_results(*cfg));
            }
        } else {
            let _ = recursion.run_sampled(stats);
        }
        proof {
            assert(recursion.spec_bounds() == cfg.spec_size());
            assert forall|j: int| 0 <= j < recursion.spec_results().len() implies config_result_ok(
                *cfg,
                #[trigger] recursion.spec_results()[j],
            ) by {
                assert(result_ok(
                    recursion.spec_bounds(),
                    recursion.spec_blocked(),
                    recursion.spec_blocked_count(),
                    recursion.spec_results()[j],
                ));
            }
            assert(fresh.spec_min_free() == cfg.min_remainder());
            assert(fresh.spec_threshold() == cfg.acceptance_threshold());
        }
        recursion.results
    }
}

impl RecursionState {
    /// Whether some cached candidate position names the cell `(row, col)`.
    fn cache_lookup(&self, row: usize, col: usize) -> (r: bool)
        ensures
            r == seq_cache_has(self.spec_cache(), row as int, col as int),
    {
        let mut j: usize = 0;
        while j < self.positions_for_lookup.len()
            invariant
                j <= self.spec_cache().len(),
                forall|j2: int|
                    0 <= j2 < j ==> !((#[trigger] self.spec_cache()[j2]).row == row
                        && self.spec_cache()[j2].col == col),
            decreases self.spec_cache().len() - j,
        {
            let p = self.positions_for_lookup[j];
            if p.row == row && p.col == col {
                return true;
            }
            j = j + 1;
        }
        false
    }

    /// Runtime check of the cache invariant: every empty position is in the
    /// candidate cache. Under the engine invariant this always returns true,
    /// as the postcondition states.
    pub fn cache_covers_empty(&self) -> (r: bool)
        requires
            self.wf(),
        ensures
            r,
    {
        let mut row: usize = 0;
        while row < self.rows
            invariant
                self.wf(),
                row <= self.rows,
            decreases self.rows - row,
        {
            let mut col: usize = 0;
            while col < self.cols
                invariant
                    self.wf(),
                    row < self.rows,
                    col <= self.cols,
                decreases self.cols - col,
            {
                if grid_get(&self.grid, row, col) == CELL_EMPTY {
                    if !self.cache_lookup(row, col) {
                        proof {
                            assert(seq_cache_has(self.spec_cache(), row as int, col as int));
                        }
                        return false;
                    }
                }
                col = col + 1;
            }
            row = row + 1;
        }
        true
    }

    /// Finds a first fit for the indexed catalog shape and, if one exists,
    /// fills and pushes it. Drives the same fill path as the search, so that
    /// arbitrary fill/unfill sequences can be exercised from outside.
    pub fn try_place(&mut self, tetra_index: usize) -> (placed: bool)
        requires
            old(self).wf(),
            tetra_index < TETRAS_COUNT,
        ensures
            final(self).wf(),
            old(self).same_setup(*final(self)),
            final(self).spec_results() == old(self).spec_results(),
            placed ==> final(self).spec_stack().len() == old(self).spec_stack().len() + 1
                && final(self).spec_free() == old(self).spec_free() - 4,
            !placed ==> *final(self) == *old(self),
            placed <==> exists|j: int|
                0 <= j < old(self).spec_cache().len() && can_place_shape(
                    old(self).cells(),
                    old(self).spec_bounds(),
                    spec_catalog()[tetra_index as int],
                    #[trigger] old(self).spec_cache()[j],
                ),
    {
        let tetra = self.catalog[tetra_index];
        proof {
            assert(tetra@ == spec_catalog()[tetra_index as int]);
        }
        let fit = self.find_any_fit_for(&tetra);
        match fit {
            Some(p) => {
                proof {
                    let j4 = choose|j4: int|
                        0 <= j4 < self.spec_cache().len() && #[trigger] self.spec_cache()[j4]
                            == p.spec_placed().position && spec_can_place(
                            *self,
                            tetra,
                            self.spec_cache()[j4],
                        ) && (forall|j2: int|
                            0 <= j2 < j4 ==> !spec_can_place(*self, tetra, self.spec_cache()[j2]));
                    assert(can_place_shape(
                        self.cells(),
                        self.spec_bounds(),
                        spec_catalog()[tetra_index as int],
                        self.spec_cache()[j4],
                    ));
                }
                self.fill_and_push(p);
                true
            },
            None => {
                proof {
                    assert forall|j: int| 0 <= j < self.spec_cache().len() implies !can_place_shape(
                        self.cells(),
                        self.spec_bounds(),
                        spec_catalog()[tetra_index as int],
                        #[trigger] self.spec_cache()[j],
                    ) by {
                        assert(!spec_can_place(*self, tetra, self.spec_cache()[j]));
                    }
                }
                false
            },
        }
    }

    /// Pops and unfills the newest placement, if any.
    pub fn undo_last(&mut self) -> (undone: bool)
        requires
            old(self).wf(),
        ensures
            final(self).wf(),
            old(self).same_setup(*final(self)),
            final(self).spec_results() == old(self).spec_results(),
            undone <==> old(self).spec_stack().len() > 0,
            undone ==> final(self).spec_stack() == old(self).spec_stack().drop_last()
                && final(self).spec_free() == old(self).spec_free() + 4,
            !undone ==> *final(self) == *old(self),
    {
        if self.stack.len() > 0 {
            self.pop_and_clear();
            true
        } else {
            false
        }
    }
}

/// Cache law: whenever the engine invariant holds — it does after
/// construction and after any sequence of fills and unfills in valid
/// push/pop pairs — the candidate cache contains every currently empty
/// position.
pub proof fn lemma_cache_covers_empty(s: RecursionState, r: int, c: int)
    requires
        s.wf(),
        0 <= r < s.spec_rows(),
        0 <= c < s.spec_cols(),
        s.cells()[r][c] == CELL_EMPTY,
    ensures
        seq_cache_has(s.spec_cache(), r, c),
{
}

/// Partition law for accepted results: the covered cells are pairwise
/// disjoint and avoid the blocked cells; blocked, covered and free cells
/// together are exactly the grid, and the free cells number exactly the
/// recorded leftover.
pub proof fn lemma_result_partitions_grid(cfg: Configuration, r: PlacementResult)
    requires
        cfg.wf(),
        config_result_ok(cfg, r),
    ensures
        placements_disjoint(r.placement@),
        covered_set(r.placement@).subset_of(
            box_set(cfg.spec_size().rows as int, cfg.spec_size().cols as int),
        ),
        covered_set(r.placement@).intersect(cfg.blocked_set()) =~= Set::<(int, int)>::empty(),
        cfg.blocked_set().union(covered_set(r.placement@)).union(
            box_set(cfg.spec_size().rows as int, cfg.spec_size().cols as int).difference(
                cfg.blocked_set().union(covered_set(r.placement@)),
            ),
        ) =~= box_set(cfg.spec_size().rows as int, cfg.spec_size().cols as int),
        box_set(cfg.spec_size().rows as int, cfg.spec_size().cols as int).difference(
            cfg.blocked_set().union(covered_set(r.placement@)),
        ).len() == r.free,
{
    let rows = cfg.spec_size().rows as int;
    let cols = cfg.spec_size().cols as int;
    let grid_all = box_set(rows, cols);
    let b = cfg.blocked_set();
    let cov = covered_set(r.placement@);
    let bounds = cfg.spec_size();
    lemma_box_set_len(rows, cols);
    lemma_pos_set_of_finite(cfg.spec_unavailable());
    lemma_pos_set_of_contains(cfg.spec_unavailable());
    assert forall|k: int| 0 <= k < r.placement@.len() implies (
    #[trigger] r.placement@[k]).wf() by {}
    lemma_covered_set_len(r.placement@);
    assert(b.subset_of(grid_all)) by {
        assert forall|q: (int, int)| b.contains(q) implies grid_all.contains(q) by {
            let i = choose|i: int|
                0 <= i < cfg.spec_unavailable().len() && pos_pair(
                    #[trigger] cfg.spec_unavailable()[i],
                ) == q;
        }
    }
    assert(cov.subset_of(grid_all)) by {
        assert forall|q: (int, int)| cov.contains(q) implies grid_all.contains(q) by {
            let k = choose|k: int|
                0 <= k < r.placement@.len() && placement_covers(
                    #[trigger] r.placement@[k],
                    q.0,
                    q.1,
                );
            let i = choose|i: int|
                0 <= i < 4 && #[trigger] r.placement@[k].cell_row(i) == q.0
                    && r.placement@[k].cell_col(i) == q.1;
            assert(r.placement@[k].cells_within(bounds));
        }
    }
    assert(b.intersect(cov) =~= Set::<(int, int)>::empty()) by {
        assert forall|q: (int, int)| !(b.contains(q) && cov.contains(q)) by {
            if b.contains(q) && cov.contains(q) {
                let k = choose|k: int|
                    0 <= k < r.placement@.len() && placement_covers(
                        #[trigger] r.placement@[k],
                        q.0,
                        q.1,
                    );
                assert(placements_avoid(r.placement@, b));
                assert(!b.contains((q.0, q.1)));
            }
        }
    }
    assert(cov.intersect(b) =~= Set::<(int, int)>::empty());
    lemma_len_disjoint_union(b, cov);
    let used = b.union(cov);
    let free_cells = grid_all.difference(used);
    assert(used.intersect(free_cells) =~= Set::<(int, int)>::empty());
    lemma_len_disjoint_union(used, free_cells);
    assert(used.union(free_cells) =~= grid_all);
}

impl Configuration {
    /// Runs the search this configuration describes. Without a result cap
    /// the outcome is pinned completely: the results are, in order, the
    /// depth-first enumeration [`spec_exhaustive_results`]. With a cap of
    /// `l`, at most `l` results come back, each below the acceptance
    /// threshold.
    pub fn run<S: CollectStats>(&self, stats: &mut S) -> (results: Vec<PlacementResult>)
        requires
            self.wf(),
        ensures
            forall|j: int|
                0 <= j < results@.len() ==> config_result_ok(*self, #[trigger] results@[j]),
            match self.spec_results_limit() {
                Some(l) => results@.len() <= l && forall|j: int|
                    0 <= j < results@.len() ==> (#[trigger] results@[j]).free
                        < self.acceptance_threshold(),
                None => forall|j: int|
                    0 <= j < results@.len() ==> (#[trigger] results@[j]).free
                        == self.min_remainder(),
            },
            self.spec_results_limit() is None ==> results_views(results@)
                == spec_exhaustive_results(*self),
    {
        RecursionState::find_placements(self, stats)
    }
}

} // verus!
