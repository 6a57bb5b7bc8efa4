//! Pure state of the interactive layout editor: grid extents, a cursor, and
//! the set of toggled blocked cells. The terminal loop that reads keys and
//! draws the screen lives outside the library; it feeds each decision into
//! these methods and renders from the accessors.

use vstd::prelude::*;

verus! {

use crate::algorithm::{ConfigError, Configuration};
use crate::util::{Pos, Size};

/// Upper clamp for the editor's counters.
pub const LIMIT_MAX: usize = usize::MAX;

/// A counter clamped to `[N, M]`.
#[derive(Clone, Copy, Debug)]
pub struct Bounded<const N: usize, const M: usize> {
    value: usize,
}

impl<const N: usize, const M: usize> Bounded<N, M> {
    pub closed spec fn spec_value(self) -> usize {
        self.value
    }

    pub fn new(value: usize) -> (r: Self)
        ensures
            r.spec_value() == value,
    {
        Self { value }
    }

    pub fn get(&self) -> (r: usize)
        ensures
            r == self.spec_value(),
    {
        self.value
    }

    /// Moves up by one, saturating at `M`.
    pub fn inc(&mut self)
        ensures
            final(self).spec_value() == if old(self).spec_value() < M {
                old(self).spec_value() + 1
            } else {
                old(self).spec_value() as int
            },
    {
        if self.value < M {
            self.value = self.value + 1;
        }
    }

    /// Moves down by one, saturating at `N`.
    pub fn dec(&mut self)
        ensures
            final(self).spec_value() == if old(self).spec_value() > N {
                old(self).spec_value() - 1
            } else {
                old(self).spec_value() as int
            },
    {
        if self.value > N {
            self.value = self.value - 1;
        }
    }
}

/// The editor's state: field extents, cursor position, and toggled cells.
pub struct State {
    rows: Bounded<1, LIMIT_MAX>,
    cols: Bounded<1, LIMIT_MAX>,
    cursor: (Bounded<0, LIMIT_MAX>, Bounded<0, LIMIT_MAX>),
    unavailable: Vec<Pos>,
}

impl State {
    pub closed spec fn spec_rows(self) -> usize {
        self.rows.spec_value()
    }

    pub closed spec fn spec_cols(self) -> usize {
        self.cols.spec_value()
    }

    pub closed spec fn spec_cursor(self) -> Pos {
        Pos { row: self.cursor.0.spec_value(), col: self.cursor.1.spec_value() }
    }

    pub closed spec fn spec_unavailable(self) -> Seq<Pos> {
        self.unavailable@
    }

    /// At least one row and column, and no cell toggled twice.
    pub open spec fn wf(self) -> bool {
        &&& self.spec_rows() >= 1
        &&& self.spec_cols() >= 1
        &&& forall|i: int, j: int|
            0 <= i < j < self.spec_unavailable().len() ==> #[trigger] self.spec_unavailable()[i]
                != #[trigger] self.spec_unavailable()[j]
    }

    /// Distinctness depends only on the toggled cells.
    proof fn lemma_wf_frame(a: State, b: State)
        requires
            a.wf(),
            b.spec_rows() >= 1,
            b.spec_cols() >= 1,
            b.spec_unavailable() == a.spec_unavailable(),
        ensures
            b.wf(),
    {
        assert forall|i: int, j: int|
            0 <= i < j < b.spec_unavailable().len() implies #[trigger] b.spec_unavailable()[i]
            != #[trigger] b.spec_unavailable()[j] by {
            assert(a.spec_unavailable()[i] != a.spec_unavailable()[j]);
        }
    }

    pub fn new(rows: usize, cols: usize) -> (s: Self)
        requires
            rows >= 1,
            cols >= 1,
        ensures
            s.wf(),
            s.spec_rows() == rows,
            s.spec_cols() == cols,
            s.spec_cursor() == (Pos { row: 0, col: 0 }),
            s.spec_unavailable() == Seq::<Pos>::empty(),
    {
        let s = State {
            rows: Bounded::new(rows),
            cols: Bounded::new(cols),
            cursor: (Bounded::new(0), Bounded::new(0)),
            unavailable: Vec::new(),
        };
        proof {
            assert(s.spec_unavailable() =~= Seq::<Pos>::empty());
        }
        s
    }

    pub fn rows_inc(&mut self)
        requires
            old(self).wf(),
        ensures
            final(self).wf(),
            final(self).spec_rows() == if old(self).spec_rows() < LIMIT_MAX {
                old(self).spec_rows() + 1
            } else {
                old(self).spec_rows() as int
            },
            final(self).spec_cols() == old(self).spec_cols(),
            final(self).spec_cursor() == old(self).spec_cursor(),
            final(self).spec_unavailable() == old(self).spec_unavailable(),
    {
        self.rows.inc();
        proof {
            State::lemma_wf_frame(*old(self), *self);
        }
    }

    pub fn rows_dec(&mut self)
        requires
            old(self).wf(),
        ensures
            final(self).wf(),
            final(self).spec_rows() == if old(self).spec_rows() > 1 {
                old(self).spec_rows() - 1
            } else {
                old(self).spec_rows() as int
            },
            final(self).spec_cols() == old(self).spec_cols(),
            final(self).spec_cursor() == old(self).spec_cursor(),
            final(self).spec_unavailable() == old(self).spec_unavailable(),
    {
        self.rows.dec();
        proof {
            State::lemma_wf_frame(*old(self), *self);
        }
    }

    pub fn cols_inc(&mut self)
        requires
            old(self).wf(),
        ensures
            final(self).wf(),
            final(self).spec_cols() == if old(self).spec_cols() < LIMIT_MAX {
                old(self).spec_cols() + 1
            } else {
                old(self).spec_cols() as int
            },
            final(self).spec_rows() == old(self).spec_rows(),
            final(self).spec_cursor() == old(self).spec_cursor(),
            final(self).spec_unavailable() == old(self).spec_unavailable(),
    {
        self.cols.inc();
        proof {
            State::lemma_wf_frame(*old(self), *self);
        }
    }

    pub fn cols_dec(&mut self)
        requires
            old(self).wf(),
        ensures
            final(self).wf(),
            final(self).spec_cols() == if old(self).spec_cols() > 1 {
                old(self).spec_cols() - 1
            } else {
                old(self).spec_cols() as int
            },
            final(self).spec_rows() == old(self).spec_rows(),
            final(self).spec_cursor() == old(self).spec_cursor(),
            final(self).spec_unavailable() == old(self).spec_unavailable(),
    {
        self.cols.dec();
        proof {
            State::lemma_wf_frame(*old(self), *self);
        }
    }

    pub fn cursor_up(&mut self)
        requires
            old(self).wf(),
        ensures
            final(self).wf(),
            final(self).spec_cursor().row == if old(self).spec_cursor().row > 0 {
                old(self).spec_cursor().row - 1
            } else {
                0
            },
            final(self).spec_cursor().col == old(self).spec_cursor().col,
            final(self).spec_rows() == old(self).spec_rows(),
            final(self).spec_cols() == old(self).spec_cols(),
            final(self).spec_unavailable() == old(self).spec_unavailable(),
    {
        self.cursor.0.dec();
        proof {
            State::lemma_wf_frame(*old(self), *self);
        }
    }

    pub fn cursor_down(&mut self)
        requires
            old(self).wf(),
        ensures
            final(self).wf(),
            final(self).spec_cursor().row == if old(self).spec_cursor().row < LIMIT_MAX {
                old(self).spec_cursor().row + 1
            } else {
                old(self).spec_cursor().row as int
            },
            final(self).spec_cursor().col == old(self).spec_cursor().col,
            final(self).spec_rows() == old(self).spec_rows(),
            final(self).spec_cols() == old(self).spec_cols(),
            final(self).spec_unavailable() == old(self).spec_unavailable(),
    {
        self.cursor.0.inc();
        proof {
            State::lemma_wf_frame(*old(self), *self);
        }
    }

    pub fn cursor_left(&mut self)
        requires
            old(self).wf(),
        ensures
            final(self).wf(),
            final(self).spec_cursor().col == if old(self).spec_cursor().col > 0 {
                old(self).spec_cursor().col - 1
            } else {
                0
            },
            final(self).spec_cursor().row == old(self).spec_cursor().row,
            final(self).spec_rows() == old(self).spec_rows(),
            final(self).spec_cols() == old(self).spec_cols(),
            final(self).spec_unavailable() == old(self).spec_unavailable(),
    {
        self.cursor.1.dec();
        proof {
            State::lemma_wf_frame(*old(self), *self);
        }
    }

    pub fn cursor_right(&mut self)
        requires
            old(self).wf(),
        ensures
            final(self).wf(),
            final(self).spec_cursor().col == if old(self).spec_cursor().col < LIMIT_MAX {
                old(self).spec_cursor().col + 1
            } else {
                old(self).spec_cursor().col as int
            },
            final(self).spec_cursor().row == old(self).spec_cursor().row,
            final(self).spec_rows() == old(self).spec_rows(),
            final(self).spec_cols() == old(self).spec_cols(),
            final(self).spec_unavailable() == old(self).spec_unavailable(),
    {
        self.cursor.1.inc();
        proof {
            State::lemma_wf_frame(*old(self), *self);
        }
    }

    /// Clamps the cursor into the current extents, as after a resize.
    pub fn align_cursor(&mut self)
        requires
            old(self).wf(),
        ensures
            final(self).wf(),
            final(self).spec_cursor().row == vstd::math::min(
                old(self).spec_cursor().row as int,
                old(self).spec_rows() - 1,
            ),
            final(self).spec_cursor().col == vstd::math::min(
                old(self).spec_cursor().col as int,
                old(self).spec_cols() - 1,
            ),
            final(self).spec_rows() == old(self).spec_rows(),
            final(self).spec_cols() == old(self).spec_cols(),
            final(self).spec_unavailable() == old(self).spec_unavailable(),
    {
        let row_cap = self.rows.get() - 1;
        if self.cursor.0.get() > row_cap {
            self.cursor.0 = Bounded::new(row_cap);
        }
        let col_cap = self.cols.get() - 1;
        if self.cursor.1.get() > col_cap {
            self.cursor.1 = Bounded::new(col_cap);
        }
        proof {
            State::lemma_wf_frame(*old(self), *self);
        }
    }

    pub fn cursor_as_pos(&self) -> (p: Pos)
        ensures
            p == self.spec_cursor(),
    {
        Pos { row: self.cursor.0.get(), col: self.cursor.1.get() }
    }

    pub fn as_size(&self) -> (s: Size)
        ensures
            s.rows == self.spec_rows(),
            s.cols == self.spec_cols(),
    {
        Size { rows: self.rows.get(), cols: self.cols.get() }
    }

    /// The currently toggled cells, in toggle order.
    pub fn unavailable(&self) -> (r: &Vec<Pos>)
        ensures
            r@ == self.spec_unavailable(),
    {
        &self.unavailable
    }

    /// Toggles the cell under the cursor: removes it from the blocked set if
    /// present, inserts it otherwise.
    pub fn toggle_under_cursor(&mut self)
        requires
            old(self).wf(),
        ensures
            final(self).wf(),
            final(self).spec_rows() == old(self).spec_rows(),
            final(self).spec_cols() == old(self).spec_cols(),
            final(self).spec_cursor() == old(self).spec_cursor(),
            old(self).spec_unavailable().contains(old(self).spec_cursor()) ==> forall|q: Pos|
                final(self).spec_unavailable().contains(q) <==> (old(self).spec_unavailable()
                    .contains(q) && q != old(self).spec_cursor()),
            !old(self).spec_unavailable().contains(old(self).spec_cursor())
                ==> final(self).spec_unavailable() == old(self).spec_unavailable().push(
                old(self).spec_cursor(),
            ),
    {
        let entry = self.cursor_as_pos();
        let ghost pre = self.unavailable@;
        let mut idx: usize = 0;
        let mut found = false;
        while idx < self.unavailable.len() && !found
            invariant
                idx <= pre.len(),
                self.unavailable@ == pre,
                !found ==> forall|j: int| 0 <= j < idx ==> pre[j] != entry,
                found ==> idx < pre.len() && pre[idx as int] == entry,
            decreases pre.len() - idx + (if found {
                0int
            } else {
                1int
            }),
        {
            if self.unavailable[idx] == entry {
                found = true;
            } else {
                idx = idx + 1;
            }
        }
        proof {
            assert(pre == old(self).spec_unavailable());
        }
        if found {
            self.unavailable.remove(idx);
            proof {
                assert(self.unavailable@ =~= pre.subrange(0, idx as int) + pre.subrange(
                    idx + 1,
                    pre.len() as int,
                ));
                assert forall|q: Pos| self.unavailable@.contains(q) implies (pre.contains(q) && q
                    != entry) by {
                    let j = choose|j: int|
                        0 <= j < self.unavailable@.len() && self.unavailable@[j] == q;
                    let j2 = if j < idx {
                        j
                    } else {
                        j + 1
                    };
                    assert(old(self).spec_unavailable()[j2] == q);
                    assert(pre.contains(q));
                    if q == entry {
                        assert(old(self).spec_unavailable()[idx as int] == entry);
                        assert(j2 != idx);
                        assert(old(self).spec_unavailable()[j2] != old(self).spec_unavailable()[
                        idx as int] || j2 == idx);
                        assert(false);
                    }
                }
                assert forall|q: Pos| pre.contains(q) && q != entry implies self.unavailable@.contains(
                    q,
                ) by {
                    let j = choose|j: int| 0 <= j < pre.len() && pre[j] == q;
                    if j < idx {
                        assert(self.unavailable@[j] == q);
                    } else {
                        assert(j != idx);
                        assert(self.unavailable@[j - 1] == q);
                    }
                }
                assert forall|i: int, j: int|
                    0 <= i < j < self.spec_unavailable().len() implies #[trigger] self.spec_unavailable()[i]
                    != #[trigger] self.spec_unavailable()[j] by {
                    let i2 = if i < idx {
                        i
                    } else {
                        i + 1
                    };
                    let j2 = if j < idx {
                        j
                    } else {
                        j + 1
                    };
                    assert(self.spec_unavailable()[i] == old(self).spec_unavailable()[i2]);
                    assert(self.spec_unavailable()[j] == old(self).spec_unavailable()[j2]);
                    assert(i2 < j2);
                    assert(old(self).spec_unavailable()[i2] != old(self).spec_unavailable()[j2]);
                }
            }
        } else {
            proof {
                assert(idx == pre.len());
                assert(forall|j: int| 0 <= j < pre.len() ==> pre[j] != entry);
            }
            self.unavailable.push(entry);
            proof {
                assert forall|i: int, j: int|
                    0 <= i < j < self.spec_unavailable().len() implies #[trigger] self.spec_unavailable()[i]
                    != #[trigger] self.spec_unavailable()[j] by {
                    if j == self.spec_unavailable().len() - 1 {
                        assert(self.spec_unavailable()[i] == pre[i]);
                        assert(self.spec_unavailable()[j] == entry);
                        assert(pre[i] != entry);
                    } else {
                        assert(self.spec_unavailable()[i] == old(self).spec_unavailable()[i]);
                        assert(self.spec_unavailable()[j] == old(self).spec_unavailable()[j]);
                        assert(old(self).spec_unavailable()[i] != old(self).spec_unavailable()[j]);
                    }
                }
                assert(self.spec_unavailable() =~= old(self).spec_unavailable().push(
                    old(self).spec_cursor(),
                ));
            }
        }
    }

    /// Builds the configuration this state describes; fails exactly when a
    /// toggled cell lies outside the current extents.
    pub fn into_configuration(self) -> (r: Result<Configuration, ConfigError>)
        requires
            self.wf(),
        ensures
            r is Ok <==> {
                &&& self.spec_rows() * self.spec_cols() <= usize::MAX
                &&& forall|i: int|
                    0 <= i < self.spec_unavailable().len()
                        ==> (#[trigger] self.spec_unavailable()[i]).row < self.spec_rows()
                        && self.spec_unavailable()[i].col < self.spec_cols()
            },
            r matches Ok(cfg) ==> {
                &&& cfg.wf()
                &&& cfg.spec_size() == (Size { rows: self.spec_rows(), cols: self.spec_cols() })
                &&& cfg.spec_unavailable() == self.spec_unavailable()
                &&& cfg.spec_results_limit() is None
            },
    {
        let size = self.as_size();
        Configuration::new(size, self.unavailable)
    }
}

} // verus!
