//! The policy table: an append-only collection that maps each distinct
//! board position reached so far to a mutable per-cell weight vector.

use vstd::prelude::*;

use crate::state::{Cell, State};

verus! {

/// The lower clamp bound for a cell weight; also the fresh-initialization
/// value. Weights start uniform at this value and never fall below it.
pub const WEIGHT_MIN: isize = 1;

/// The upper clamp bound for a cell weight; credit assignment never pushes
/// a weight above it.
pub const WEIGHT_MAX: isize = 1000;

/// One cell of a weighted position: either already occupied, or empty and
/// carrying the sampling weight for playing there.
#[derive(Clone, Copy, PartialEq, Eq, Structural, Debug)]
pub enum WeightedCell {
    Cell(Cell),
    Weight(isize),
}

impl WeightedCell {
    /// The sampling weight this cell contributes: its weight if empty,
    /// nothing if occupied.
    pub open spec fn weight_of(self) -> int {
        match self {
            WeightedCell::Weight(w) => w as int,
            WeightedCell::Cell(_) => 0,
        }
    }

    /// The occupancy this cell shows on the underlying board.
    pub open spec fn occupancy(self) -> Option<Cell> {
        match self {
            WeightedCell::Cell(c) => Some(c),
            WeightedCell::Weight(_) => None,
        }
    }
}

impl Default for WeightedCell {
    /// An empty cell with the fresh-initialization weight.
    fn default() -> (c: WeightedCell)
        ensures
            c == WeightedCell::Weight(WEIGHT_MIN),
    {
        WeightedCell::Weight(WEIGHT_MIN)
    }
}

/// One policy entry: a board position overlaid with a weight for each of
/// its empty cells.
pub struct WeightedState {
    pub rows: usize,
    pub cols: usize,
    pub state: Vec<Vec<WeightedCell>>,
}

impl WeightedState {
    /// The grid is really `rows` x `cols`, every weight lies inside the
    /// clamp bounds, and the total weight cannot overflow a `usize`.
    pub open spec fn wf(self) -> bool {
        &&& self.state@.len() == self.rows
        &&& forall|i: int| 0 <= i < self.rows ==> (#[trigger] self.state@[i])@.len() == self.cols
        &&& forall|i: int, j: int|
            0 <= i < self.rows && 0 <= j < self.cols
                ==> (match #[trigger] self.state@[i]@[j] {
                    WeightedCell::Weight(w) => WEIGHT_MIN <= w <= WEIGHT_MAX,
                    WeightedCell::Cell(_) => true,
                })
        &&& (self.rows as int) * (self.cols as int) * (WEIGHT_MAX as int) <= usize::MAX as int
    }

    pub open spec fn in_bounds(self, m: int, n: int) -> bool {
        0 <= m < self.rows && 0 <= n < self.cols
    }

    /// The weighted cell at row `m`, column `n`.
    pub open spec fn at(self, m: int, n: int) -> WeightedCell {
        self.state@[m]@[n]
    }

    /// The occupancy of the underlying board at row `m`, column `n`.
    pub open spec fn board_at(self, m: int, n: int) -> Option<Cell> {
        self.at(m, n).occupancy()
    }

    /// This entry records exactly the position `s`.
    pub open spec fn matches_state(self, s: State) -> bool {
        &&& self.rows == s.rows
        &&& self.cols == s.cols
        &&& forall|m: int, n: int|
            self.in_bounds(m, n) ==> #[trigger] self.board_at(m, n) == s.at(m, n)
    }

    /// The freshly-initialized entry for position `s`: occupied cells taken
    /// over, every empty cell weighted `WEIGHT_MIN`.
    pub open spec fn fresh_for(self, s: State) -> bool {
        &&& self.rows == s.rows
        &&& self.cols == s.cols
        &&& forall|m: int, n: int|
            self.in_bounds(m, n) ==> #[trigger] self.at(m, n) == (match s.at(m, n) {
                Some(c) => WeightedCell::Cell(c),
                None => WeightedCell::Weight(WEIGHT_MIN),
            })
    }

    /// The freshly-initialized entry recording position `s`: its occupied
    /// cells taken over, a weight of `WEIGHT_MIN` on every empty cell.
    pub fn fresh(s: &State) -> (r: WeightedState)
        requires
            s.wf(),
            (s.rows as int) * (s.cols as int) * (WEIGHT_MAX as int) <= usize::MAX as int,
        ensures
            r.wf(),
            r.fresh_for(*s),
            r.matches_state(*s),
    {
        let mut grid: Vec<Vec<WeightedCell>> = Vec::new();
        let mut m: usize = 0;
        while m < s.rows
            invariant
                s.wf(),
                m <= s.rows,
                grid@.len() == m,
                forall|i: int| 0 <= i < m ==> (#[trigger] grid@[i])@.len() == s.cols,
                forall|i: int, j: int|
                    0 <= i < m && 0 <= j < s.cols ==> #[trigger] grid@[i]@[j] == (match s.at(i, j) {
                        Some(c) => WeightedCell::Cell(c),
                        None => WeightedCell::Weight(WEIGHT_MIN),
                    }),
            decreases s.rows - m,
        {
            let mut row: Vec<WeightedCell> = Vec::new();
            let mut n: usize = 0;
            while n < s.cols
                invariant
                    s.wf(),
                    m < s.rows,
                    n <= s.cols,
                    row@.len() == n,
                    forall|j: int|
                        0 <= j < n ==> #[trigger] row@[j] == (match s.at(m as int, j) {
                            Some(c) => WeightedCell::Cell(c),
                            None => WeightedCell::Weight(WEIGHT_MIN),
                        }),
                decreases s.cols - n,
            {
                let cell = match s.state[m][n] {
                    Some(c) => WeightedCell::Cell(c),
                    None => WeightedCell::Weight(WEIGHT_MIN),
                };
                row.push(cell);
                n += 1;
            }
            grid.push(row);
            m += 1;
        }
        WeightedState { rows: s.rows, cols: s.cols, state: grid }
    }

    /// What one pass of weight clearing leaves in a cell: occupied cells
    /// are kept, every weight goes back to the fresh-initialization value.
    pub open spec fn cleared(c: WeightedCell) -> WeightedCell {
        match c {
            WeightedCell::Weight(_) => WeightedCell::Weight(WEIGHT_MIN),
            WeightedCell::Cell(cc) => WeightedCell::Cell(cc),
        }
    }

    /// Resets every weight (occupied cells are left alone) back to the
    /// fresh-initialization value.
    pub fn clear_weights(&mut self)
        requires
            old(self).wf(),
        ensures
            final(self).wf(),
            final(self).rows == old(self).rows,
            final(self).cols == old(self).cols,
            forall|m: int, n: int|
                old(self).in_bounds(m, n)
                    ==> #[trigger] final(self).at(m, n) == WeightedState::cleared(old(self).at(m, n)),
    {
        let rows = self.rows;
        let cols = self.cols;
        let mut m: usize = 0;
        while m < rows
            invariant
                rows == old(self).rows,
                cols == old(self).cols,
                self.rows == rows,
                self.cols == cols,
                old(self).wf(),
                self.state@.len() == rows,
                m <= rows,
                forall|i: int| 0 <= i < rows ==> (#[trigger] self.state@[i])@.len() == cols,
                forall|i: int, j: int|
                    0 <= i < m && 0 <= j < cols
                        ==> #[trigger] self.at(i, j) == WeightedState::cleared(old(self).at(i, j)),
                forall|i: int, j: int|
                    m <= i < rows && 0 <= j < cols
                        ==> #[trigger] self.at(i, j) == old(self).at(i, j),
            decreases rows - m,
        {
            let mut n: usize = 0;
            while n < cols
                invariant
                    rows == old(self).rows,
                    cols == old(self).cols,
                    self.rows == rows,
                    self.cols == cols,
                    old(self).wf(),
                    self.state@.len() == rows,
                    m < rows,
                    n <= cols,
                    forall|i: int| 0 <= i < rows ==> (#[trigger] self.state@[i])@.len() == cols,
                    forall|i: int, j: int|
                        0 <= i < m && 0 <= j < cols
                            ==> #[trigger] self.at(i, j) == WeightedState::cleared(old(self).at(i, j)),
                    forall|j: int|
                        0 <= j < n
                            ==> #[trigger] self.at(m as int, j) == WeightedState::cleared(old(self).at(m as int, j)),
                    forall|j: int|
                        n <= j < cols ==> #[trigger] self.at(m as int, j) == old(self).at(m as int, j),
                    forall|i: int, j: int|
                        m < i < rows && 0 <= j < cols
                            ==> #[trigger] self.at(i, j) == old(self).at(i, j),
                decreases cols - n,
            {
                let ghost pre = *self;
                let c = match self.state[m][n] {
                    WeightedCell::Weight(_) => WeightedCell::Weight(WEIGHT_MIN),
                    WeightedCell::Cell(cc) => WeightedCell::Cell(cc),
                };
                self.state[m][n] = c;
                proof {
                    let mi = m as int;
                    let ni = n as int;
                    assert(self.at(mi, ni) == WeightedState::cleared(pre.at(mi, ni)));
                    assert forall|i: int, j: int|
                        0 <= i < rows && 0 <= j < cols && !(i == mi && j == ni)
                            implies self.at(i, j) == pre.at(i, j) by {}
                    assert forall|i: int, j: int| 0 <= i < mi && 0 <= j < cols
                        implies #[trigger] self.at(i, j) == WeightedState::cleared(old(self).at(i, j)) by {
                        assert(pre.at(i, j) == WeightedState::cleared(old(self).at(i, j)));
                        assert(self.at(i, j) == pre.at(i, j));
                    }
                    assert forall|j: int| 0 <= j <= ni
                        implies #[trigger] self.at(mi, j) == WeightedState::cleared(old(self).at(mi, j)) by {
                        if j < ni {
                            assert(pre.at(mi, j) == WeightedState::cleared(old(self).at(mi, j)));
                            assert(self.at(mi, j) == pre.at(mi, j));
                        } else {
                            assert(pre.at(mi, ni) == old(self).at(mi, ni));
                        }
                    }
                    assert forall|j: int| ni < j < cols
                        implies #[trigger] self.at(mi, j) == old(self).at(mi, j) by {
                        assert(pre.at(mi, j) == old(self).at(mi, j));
                        assert(self.at(mi, j) == pre.at(mi, j));
                    }
                    assert forall|i: int, j: int| mi < i < rows && 0 <= j < cols
                        implies #[trigger] self.at(i, j) == old(self).at(i, j) by {
                        assert(pre.at(i, j) == old(self).at(i, j));
                        assert(self.at(i, j) == pre.at(i, j));
                    }
                }
                n += 1;
            }
            m += 1;
        }
        proof {
            assert forall|i: int, j: int| 0 <= i < rows && 0 <= j < cols
                implies (match #[trigger] self.state@[i]@[j] {
                    WeightedCell::Weight(w) => WEIGHT_MIN <= w <= WEIGHT_MAX,
                    WeightedCell::Cell(_) => true,
                }) by {
                assert(self.at(i, j) == WeightedState::cleared(old(self).at(i, j)));
            }
        }
    }

    /// Strips the weights off, leaving just the board position this entry
    /// records.
    pub fn just_state(&self) -> (r: State)
        requires
            self.wf(),
        ensures
            r.wf(),
            r.rows == self.rows,
            r.cols == self.cols,
            forall|m: int, n: int|
                self.in_bounds(m, n) ==> #[trigger] r.at(m, n) == self.board_at(m, n),
            self.matches_state(r),
    {
        let mut grid: Vec<Vec<Option<Cell>>> = Vec::new();
        let mut m: usize = 0;
        while m < self.rows
            invariant
                self.wf(),
                m <= self.rows,
                grid@.len() == m,
                forall|i: int| 0 <= i < m ==> (#[trigger] grid@[i])@.len() == self.cols,
                forall|i: int, j: int|
                    0 <= i < m && 0 <= j < self.cols
                        ==> #[trigger] grid@[i]@[j] == self.board_at(i, j),
            decreases self.rows - m,
        {
            let mut row: Vec<Option<Cell>> = Vec::new();
            let mut n: usize = 0;
            while n < self.cols
                invariant
                    self.wf(),
                    m < self.rows,
                    n <= self.cols,
                    row@.len() == n,
                    forall|j: int| 0 <= j < n ==> #[trigger] row@[j] == self.board_at(m as int, j),
                decreases self.cols - n,
            {
                let cell = match self.state[m][n] {
                    WeightedCell::Cell(c) => Some(c),
                    WeightedCell::Weight(_) => None,
                };
                row.push(cell);
                n += 1;
            }
            grid.push(row);
            m += 1;
        }
        State { rows: self.rows, cols: self.cols, state: grid }
    }

    /// Reports whether this entry records exactly the position `s`.
    pub fn matches(&self, s: &State) -> (r: bool)
        requires
            self.wf(),
            s.wf(),
        ensures
            r == self.matches_state(*s),
    {
        if self.rows != s.rows || self.cols != s.cols {
            return false;
        }
        let mut m: usize = 0;
        while m < self.rows
            invariant
                self.wf(),
                s.wf(),
                self.rows == s.rows,
                self.cols == s.cols,
                m <= self.rows,
                forall|i: int, j: int|
                    0 <= i < m && 0 <= j < self.cols
                        ==> #[trigger] self.board_at(i, j) == s.at(i, j),
            decreases self.rows - m,
        {
            let mut n: usize = 0;
            while n < self.cols
                invariant
                    self.wf(),
                    s.wf(),
                    self.rows == s.rows,
                    self.cols == s.cols,
                    m < self.rows,
                    n <= self.cols,
                    forall|i: int, j: int|
                        0 <= i < m && 0 <= j < self.cols
                            ==> #[trigger] self.board_at(i, j) == s.at(i, j),
                    forall|j: int|
                        0 <= j < n ==> #[trigger] self.board_at(m as int, j) == s.at(m as int, j),
                decreases self.cols - n,
            {
                let here = match self.state[m][n] {
                    WeightedCell::Cell(c) => Some(c),
                    WeightedCell::Weight(_) => None,
                };
                let same = match (here, s.state[m][n]) {
                    (Some(a), Some(b)) => a == b,
                    (None, None) => true,
                    _ => false,
                };
                if !same {
                    proof {
                        assert(self.board_at(m as int, n as int) != s.at(m as int, n as int));
                    }
                    return false;
                }
                n += 1;
            }
            m += 1;
        }
        true
    }
}

/// Two entries record the same board position (their occupancies agree
/// everywhere).
pub open spec fn entries_same_position(a: WeightedState, b: WeightedState) -> bool {
    &&& a.rows == b.rows
    &&& a.cols == b.cols
    &&& forall|m: int, n: int| a.in_bounds(m, n) ==> #[trigger] a.board_at(m, n) == b.board_at(m, n)
}

/// The policy table: an ordered, append-only collection of weighted
/// positions, at most one entry per distinct board position. It is created
/// once, survives across episodes, and only grows (new entries) or has its
/// weights mutated in place.
pub struct WeightedStates {
    pub rows: usize,
    pub cols: usize,
    pub states: Vec<WeightedState>,
}

impl WeightedStates {
    /// Every entry is well-formed with the table's dimensions, and no two
    /// entries record the same position.
    pub open spec fn wf(self) -> bool {
        &&& forall|i: int| 0 <= i < self.states@.len() ==> (#[trigger] self.states@[i]).wf()
        &&& forall|i: int|
            0 <= i < self.states@.len()
                ==> (#[trigger] self.states@[i]).rows == self.rows && self.states@[i].cols == self.cols
        &&& forall|i: int, j: int|
            0 <= i < self.states@.len() && 0 <= j < self.states@.len() && i != j
                ==> !entries_same_position(#[trigger] self.states@[i], #[trigger] self.states@[j])
        &&& (self.rows as int) * (self.cols as int) * (WEIGHT_MAX as int) <= usize::MAX as int
    }

    /// Some entry of the table records exactly the position `s`.
    pub open spec fn contains_state(self, s: State) -> bool {
        exists|i: int| 0 <= i < self.states@.len() && (#[trigger] self.states@[i]).matches_state(s)
    }

    /// A table holding the single entry the learning starts from: the empty
    /// board, freshly initialized.
    pub fn new(rows: usize, cols: usize) -> (r: WeightedStates)
        requires
            (rows as int) * (cols as int) * (WEIGHT_MAX as int) <= usize::MAX as int,
        ensures
            r.wf(),
            r.rows == rows,
            r.cols == cols,
            r.states@.len() == 1,
            forall|m: int, n: int|
                0 <= m < rows && 0 <= n < cols
                    ==> #[trigger] r.states@[0].at(m, n) == WeightedCell::Weight(WEIGHT_MIN),
    {
        let empty = State::empty(rows, cols);
        let first = WeightedState::fresh(&empty);
        let mut states: Vec<WeightedState> = Vec::new();
        states.push(first);
        WeightedStates { rows, cols, states }
    }

    /// The number of entries.
    pub fn len(&self) -> (r: usize)
        ensures
            r == self.states@.len(),
    {
        self.states.len()
    }

    /// A shared view of the entry at `i`.
    pub fn entry(&self, i: usize) -> (r: &WeightedState)
        requires
            i < self.states@.len(),
        ensures
            *r == self.states@[i as int],
    {
        &self.states[i]
    }

    /// Scans the entries for an exact match of `state` and returns the
    /// index to mutate through. The table invariant guarantees at most one
    /// entry can match (see [`WeightedStates::lemma_unique_match`]), so the
    /// first match is the only one.
    pub fn find_mut(&self, state: &State) -> (r: Option<usize>)
        requires
            self.wf(),
            state.wf(),
        ensures
            match r {
                Some(i) => i < self.states@.len() && self.states@[i as int].matches_state(*state),
                None => !self.contains_state(*state),
            },
    {
        let mut i: usize = 0;
        let len = self.states.len();
        while i < len
            invariant
                self.wf(),
                state.wf(),
                len == self.states@.len(),
                i <= len,
                forall|k: int| 0 <= k < i ==> !(#[trigger] self.states@[k]).matches_state(*state),
            decreases len - i,
        {
            if self.states[i].matches(state) {
                return Some(i);
            }
            i += 1;
        }
        proof {
            assert forall|k: int| 0 <= k < self.states@.len()
                implies !(#[trigger] self.states@[k]).matches_state(*state) by {}
        }
        None
    }

    /// At most one entry can match a given position: the table invariant
    /// forbids two entries recording the same board.
    pub proof fn lemma_unique_match(self, s: State, i: int, j: int)
        requires
            self.wf(),
            0 <= i < self.states@.len(),
            0 <= j < self.states@.len(),
            self.states@[i].matches_state(s),
            self.states@[j].matches_state(s),
        ensures
            i == j,
    {
        if i != j {
            assert(entries_same_position(self.states@[i], self.states@[j])) by {
                assert forall|m: int, n: int| self.states@[i].in_bounds(m, n)
                    implies #[trigger] self.states@[i].board_at(m, n)
                        == self.states@[j].board_at(m, n) by {
                    assert(self.states@[i].board_at(m, n) == s.at(m, n));
                    assert(self.states@[j].board_at(m, n) == s.at(m, n));
                }
            }
        }
    }

    /// Looks `state` up and, if it is absent, appends a freshly-initialized
    /// entry for it; an entry is never copied from a predecessor position.
    /// Reports whether the table grew.
    pub fn ensure_entry(&mut self, state: &State) -> (added: bool)
        requires
            old(self).wf(),
            state.wf(),
            state.rows == old(self).rows,
            state.cols == old(self).cols,
        ensures
            final(self).wf(),
            final(self).rows == old(self).rows,
            final(self).cols == old(self).cols,
            added == !old(self).contains_state(*state),
            !added ==> *final(self) == *old(self),
            added ==> {
                &&& final(self).states@.len() == old(self).states@.len() + 1
                &&& forall|i: int|
                    0 <= i < old(self).states@.len()
                        ==> #[trigger] final(self).states@[i] == old(self).states@[i]
                &&& final(self).states@.last().fresh_for(*state)
            },
            final(self).contains_state(*state),
    {
        match self.find_mut(state) {
            Some(i) => {
                proof {
                    assert(self.contains_state(*state));
                }
                false
            },
            None => {
                let fresh = WeightedState::fresh(state);
                proof {
                    assert forall|k: int| 0 <= k < self.states@.len()
                        implies !entries_same_position(self.states@[k], fresh) by {
                        if entries_same_position(self.states@[k], fresh) {
                            assert(self.states@[k].matches_state(*state)) by {
                                assert forall|m: int, n: int| self.states@[k].in_bounds(m, n)
                                    implies #[trigger] self.states@[k].board_at(m, n)
                                        == state.at(m, n) by {
                                    assert(self.states@[k].board_at(m, n) == fresh.board_at(m, n));
                                    assert(fresh.at(m, n) == (match state.at(m, n) {
                                        Some(c) => WeightedCell::Cell(c),
                                        None => WeightedCell::Weight(WEIGHT_MIN),
                                    }));
                                }
                            }
                        }
                    }
                    assert forall|k: int| 0 <= k < self.states@.len()
                        implies !entries_same_position(fresh, self.states@[k]) by {
                        if entries_same_position(fresh, self.states@[k]) {
                            assert(entries_same_position(self.states@[k], fresh)) by {
                                assert forall|m: int, n: int| self.states@[k].in_bounds(m, n)
                                    implies #[trigger] self.states@[k].board_at(m, n)
                                        == fresh.board_at(m, n) by {
                                    assert(fresh.board_at(m, n) == self.states@[k].board_at(m, n));
                                }
                            }
                        }
                    }
                }
                self.states.push(fresh);
                proof {
                    let last = self.states@.len() - 1;
                    assert(self.states@[last].matches_state(*state)) by {
                        assert forall|m: int, n: int| self.states@[last].in_bounds(m, n)
                            implies #[trigger] self.states@[last].board_at(m, n)
                                == state.at(m, n) by {
                            assert(self.states@[last].at(m, n) == (match state.at(m, n) {
                                Some(c) => WeightedCell::Cell(c),
                                None => WeightedCell::Weight(WEIGHT_MIN),
                            }));
                        }
                    }
                    assert(self.contains_state(*state));
                }
                true
            },
        }
    }
}

} // verus!
