//! The board: a fixed-dimension grid of optional cell occupancy, with
//! bounds-safe queries, playability, and k-in-a-row winner detection.

use vstd::prelude::*;

use crate::players::Player;

verus! {

/// Occupancy of a single grid cell; a cell that is not occupied is
/// represented as `None` in the grid.
#[derive(Clone, Copy, PartialEq, Eq, Structural, Debug)]
pub enum Cell {
    Player(Player),
}

impl Cell {
    /// The player occupying this cell.
    pub fn unwrap(self) -> (p: Player)
        ensures
            self == Cell::Player(p),
    {
        match self {
            Cell::Player(p) => p,
        }
    }
}

/// One of the four line directions a winning run can lie along. The first
/// grid index grows along `Horizontal`, the second along `Perpendicular`;
/// the diagonals grow along both, `DiagonalLeft` with the second index
/// shrinking.
#[derive(Clone, Copy, PartialEq, Eq, Structural, Debug)]
pub enum Direction {
    DiagonalRight,
    DiagonalLeft,
    Horizontal,
    Perpendicular,
}

impl Direction {
    /// Step of the first coordinate when following this direction.
    pub open spec fn step_m(self) -> int {
        match self {
            Direction::DiagonalRight => 1,
            Direction::DiagonalLeft => 1,
            Direction::Horizontal => 1,
            Direction::Perpendicular => 0,
        }
    }

    /// Step of the second coordinate when following this direction.
    pub open spec fn step_n(self) -> int {
        match self {
            Direction::DiagonalRight => 1,
            Direction::DiagonalLeft => -1,
            Direction::Horizontal => 0,
            Direction::Perpendicular => 1,
        }
    }
}

/// An `rows` x `cols` grid of optional cell occupancy. Value equality over
/// the full contents defines "the same position".
pub struct State {
    pub rows: usize,
    pub cols: usize,
    pub state: Vec<Vec<Option<Cell>>>,
}

impl State {
    /// The grid really has `rows` rows of `cols` cells each.
    pub open spec fn wf(self) -> bool {
        &&& self.state@.len() == self.rows
        &&& forall|i: int| 0 <= i < self.rows ==> (#[trigger] self.state@[i])@.len() == self.cols
    }

    pub open spec fn in_bounds(self, m: int, n: int) -> bool {
        0 <= m < self.rows && 0 <= n < self.cols
    }

    /// The cell at row `m`, column `n` (meaningful inside the bounds).
    pub open spec fn at(self, m: int, n: int) -> Option<Cell> {
        self.state@[m]@[n]
    }

    /// Two boards of the same dimensions with the same contents are the
    /// same position.
    pub open spec fn same_position(self, other: State) -> bool {
        &&& self.rows == other.rows
        &&& self.cols == other.cols
        &&& forall|m: int, n: int|
            self.in_bounds(m, n) ==> #[trigger] self.at(m, n) == other.at(m, n)
    }

    /// A board whose every cell is empty.
    pub fn empty(rows: usize, cols: usize) -> (s: State)
        ensures
            s.wf(),
            s.rows == rows,
            s.cols == cols,
            forall|m: int, n: int| s.in_bounds(m, n) ==> #[trigger] s.at(m, n) is None,
    {
        let mut grid: Vec<Vec<Option<Cell>>> = Vec::new();
        let mut m: usize = 0;
        while m < rows
            invariant
                m <= rows,
                grid@.len() == m,
                forall|i: int| 0 <= i < m ==> (#[trigger] grid@[i])@.len() == cols,
                forall|i: int, j: int|
                    0 <= i < m && 0 <= j < cols ==> #[trigger] grid@[i]@[j] is None,
            decreases rows - m,
        {
            let mut row: Vec<Option<Cell>> = Vec::new();
            let mut n: usize = 0;
            while n < cols
                invariant
                    n <= cols,
                    row@.len() == n,
                    forall|j: int| 0 <= j < n ==> #[trigger] row@[j] is None,
                decreases cols - n,
            {
                row.push(None);
                n += 1;
            }
            grid.push(row);
            m += 1;
        }
        State { rows, cols, state: grid }
    }

    /// Wraps an existing rectangular grid.
    pub fn new(state: Vec<Vec<Option<Cell>>>) -> (s: State)
        requires
            forall|i: int|
                0 <= i < state@.len() ==> (#[trigger] state@[i])@.len() == state@[0]@.len(),
        ensures
            s.wf(),
            s.rows == state@.len(),
            s.state@ == state@,
            state@.len() > 0 ==> s.cols == state@[0]@.len(),
            state@.len() == 0 ==> s.cols == 0,
    {
        let rows = state.len();
        let cols = if rows == 0 { 0 } else { state[0].len() };
        State { rows, cols, state }
    }

    /// Bounds-safe lookup: coordinates outside the grid read as empty.
    pub fn get(&self, m: usize, n: usize) -> (r: Option<Cell>)
        requires
            self.wf(),
        ensures
            r == if self.in_bounds(m as int, n as int) {
                self.at(m as int, n as int)
            } else {
                None::<Cell>
            },
    {
        if m < self.rows && n < self.cols {
            self.state[m][n]
        } else {
            None
        }
    }

    /// True iff some cell is still empty.
    pub fn playable(&self) -> (r: bool)
        requires
            self.wf(),
        ensures
            r == exists|m: int, n: int| self.in_bounds(m, n) && #[trigger] self.at(m, n) is None,
    {
        let mut m: usize = 0;
        while m < self.rows
            invariant
                self.wf(),
                m <= self.rows,
                forall|i: int, j: int|
                    0 <= i < m && 0 <= j < self.cols ==> #[trigger] self.at(i, j) is Some,
            decreases self.rows - m,
        {
            let mut n: usize = 0;
            while n < self.cols
                invariant
                    self.wf(),
                    m < self.rows,
                    n <= self.cols,
                    forall|i: int, j: int|
                        0 <= i < m && 0 <= j < self.cols ==> #[trigger] self.at(i, j) is Some,
                forall|j: int| 0 <= j < n ==> #[trigger] self.at(m as int, j) is Some,
                decreases self.cols - n,
            {
                if self.state[m][n].is_none() {
                    proof {
                        assert(self.in_bounds(m as int, n as int)
                            && self.at(m as int, n as int) is None);
                    }
                    return true;
                }
                n += 1;
            }
            m += 1;
        }
        false
    }

    /// A contiguous run of `k` cells occupied by `p`, starting at `(m, n)`
    /// and following direction `d`.
    pub open spec fn run_from(self, p: Player, k: int, m: int, n: int, d: Direction) -> bool
        decreases k,
    {
        if k <= 0 {
            true
        } else {
            &&& self.in_bounds(m, n)
            &&& self.at(m, n) == Some(Cell::Player(p))
            &&& self.run_from(p, k - 1, m + d.step_m(), n + d.step_n(), d)
        }
    }

    /// The board contains a contiguous run of length at least `k` of `p`'s
    /// marks along a row, column, or either diagonal. (Every such run of
    /// length at least `k` contains one of exactly `k` that starts at some
    /// cell, so a start-anchored run of length `k` is all that is quantified
    /// over.)
    pub open spec fn has_winning_run(self, p: Player, k: int) -> bool {
        exists|m: int, n: int, d: Direction| self.run_from(p, k, m, n, d)
    }

    /// Walks `k` steps from `(m, n)` along `d` and reports whether every
    /// visited cell is occupied by `p`.
    fn check_run(&self, p: Player, k: usize, m: usize, n: usize, d: Direction) -> (r: bool)
        requires
            self.wf(),
        ensures
            r == self.run_from(p, k as int, m as int, n as int, d),
        decreases k,
    {
        proof {
            reveal_with_fuel(State::run_from, 2);
        }
        if k == 0 {
            return true;
        }
        if !(m < self.rows && n < self.cols) {
            return false;
        }
        let occupied_by_p = match self.state[m][n] {
            Some(Cell::Player(q)) => q == p,
            None => false,
        };
        if !occupied_by_p {
            return false;
        }
        if k == 1 {
            return true;
        }
        match d {
            Direction::Horizontal => self.check_run(p, k - 1, m + 1, n, d),
            Direction::Perpendicular => self.check_run(p, k - 1, m, n + 1, d),
            Direction::DiagonalRight => self.check_run(p, k - 1, m + 1, n + 1, d),
            Direction::DiagonalLeft => {
                if n == 0 {
                    false
                } else {
                    self.check_run(p, k - 1, m + 1, n - 1, d)
                }
            },
        }
    }

    /// Returns the player completing a run of length at least
    /// `win_condition` in any of the four directions, and `None` exactly
    /// when no player has such a run.
    pub fn winner(&self, win_condition: usize) -> (r: Option<Player>)
        requires
            self.wf(),
            win_condition >= 1,
        ensures
            match r {
                Some(p) => self.has_winning_run(p, win_condition as int),
                None => forall|p: Player| !self.has_winning_run(p, win_condition as int),
            },
    {
        let k = win_condition;
        let mut m: usize = 0;
        while m < self.rows
            invariant
                self.wf(),
                k == win_condition,
                k >= 1,
                m <= self.rows,
                forall|p: Player, d: Direction, i: int, j: int|
                    0 <= i < m && 0 <= j < self.cols
                        ==> !(#[trigger] self.run_from(p, k as int, i, j, d)),
            decreases self.rows - m,
        {
            let mut n: usize = 0;
            while n < self.cols
                invariant
                    self.wf(),
                    k == win_condition,
                    k >= 1,
                    m < self.rows,
                    n <= self.cols,
                    forall|p: Player, d: Direction, i: int, j: int|
                        0 <= i < m && 0 <= j < self.cols
                            ==> !(#[trigger] self.run_from(p, k as int, i, j, d)),
                    forall|p: Player, d: Direction, j: int|
                        0 <= j < n ==> !(#[trigger] self.run_from(p, k as int, m as int, j, d)),
                decreases self.cols - n,
            {
                if let Some(c) = self.state[m][n] {
                    let target_player = c.unwrap();
                    if self.check_run(target_player, k, m, n, Direction::DiagonalRight)
                        || self.check_run(target_player, k, m, n, Direction::DiagonalLeft)
                        || self.check_run(target_player, k, m, n, Direction::Horizontal)
                        || self.check_run(target_player, k, m, n, Direction::Perpendicular)
                    {
                        proof {
                            let ki = k as int;
                            let mi = m as int;
                            let ni = n as int;
                            if self.run_from(target_player, ki, mi, ni, Direction::DiagonalRight) {
                                assert(self.has_winning_run(target_player, ki));
                            } else if self.run_from(target_player, ki, mi, ni, Direction::DiagonalLeft) {
                                assert(self.has_winning_run(target_player, ki));
                            } else if self.run_from(target_player, ki, mi, ni, Direction::Horizontal) {
                                assert(self.has_winning_run(target_player, ki));
                            } else {
                                assert(self.run_from(target_player, ki, mi, ni, Direction::Perpendicular));
                                assert(self.has_winning_run(target_player, ki));
                            }
                        }
                        return Some(target_player);
                    }
                }
                proof {
                    assert forall|p: Player, d: Direction|
                        !(self.run_from(p, k as int, m as int, n as int, d)) by {
                        if self.run_from(p, k as int, m as int, n as int, d) {
                            assert(self.at(m as int, n as int) == Some(Cell::Player(p)));
                        }
                    }
                }
                n += 1;
            }
            m += 1;
        }
        proof {
            assert forall|p: Player| !self.has_winning_run(p, k as int) by {
                if self.has_winning_run(p, k as int) {
                    let (i, j, d) = choose|i: int, j: int, d: Direction|
                        self.run_from(p, k as int, i, j, d);
                    assert(self.in_bounds(i, j));
                    assert(!self.run_from(p, k as int, i, j, d));
                }
            }
        }
        None
    }
}

/// The number of empty cells among the first `j` cells of one row.
pub open spec fn row_empty_count(row: Seq<Option<Cell>>, j: int) -> int
    decreases j,
{
    if j <= 0 {
        0
    } else {
        row_empty_count(row, j - 1) + (if row[j - 1] is None {
            1int
        } else {
            0int
        })
    }
}

impl State {
    /// The number of empty cells in the first `i` rows.
    pub open spec fn empty_in_rows(self, i: int) -> int
        decreases i,
    {
        if i <= 0 {
            0
        } else {
            self.empty_in_rows(i - 1) + row_empty_count(self.state@[i - 1]@, self.cols as int)
        }
    }

    /// The number of empty cells on the whole board.
    pub open spec fn num_empty(self) -> int {
        self.empty_in_rows(self.rows as int)
    }
}

/// A row's empty count lies between 0 and `j`.
pub proof fn lemma_row_empty_count_nonneg(row: Seq<Option<Cell>>, j: int)
    ensures
        0 <= row_empty_count(row, j) <= (if j >= 0 { j } else { 0 }),
    decreases j,
{
    if j > 0 {
        lemma_row_empty_count_nonneg(row, j - 1);
    }
}

/// Rows that agree on their first `j` cells have the same empty count there.
pub proof fn lemma_row_empty_count_agree(a: Seq<Option<Cell>>, b: Seq<Option<Cell>>, j: int)
    requires
        forall|k: int| 0 <= k < j ==> a[k] == b[k],
    ensures
        row_empty_count(a, j) == row_empty_count(b, j),
    decreases j,
{
    if j > 0 {
        lemma_row_empty_count_agree(a, b, j - 1);
    }
}

/// Filling the one empty cell `n` of a row lowers its empty count by one.
pub proof fn lemma_row_empty_count_fill(a: Seq<Option<Cell>>, b: Seq<Option<Cell>>, j: int, n: int)
    requires
        0 <= n < j,
        a[n] is None,
        b[n] is Some,
        forall|k: int| 0 <= k < j && k != n ==> a[k] == b[k],
    ensures
        row_empty_count(b, j) == row_empty_count(a, j) - 1,
    decreases j,
{
    if j - 1 == n {
        lemma_row_empty_count_agree(a, b, j - 1);
    } else {
        lemma_row_empty_count_fill(a, b, j - 1, n);
    }
}

/// A row with an empty cell among its first `j` has a positive empty count.
pub proof fn lemma_row_empty_count_pos(row: Seq<Option<Cell>>, j: int, n: int)
    requires
        0 <= n < j,
        row[n] is None,
    ensures
        row_empty_count(row, j) >= 1,
    decreases j,
{
    if n < j - 1 {
        lemma_row_empty_count_pos(row, j - 1, n);
    } else {
        lemma_row_empty_count_nonneg(row, j - 1);
    }
}

/// A prefix of a run is a run: a board holding a contiguous run of length
/// at least `k` (any `run_from` with a larger length) thereby holds a
/// winning run of length `k`.
pub proof fn lemma_run_prefix(s: State, p: Player, j: int, k: int, m: int, n: int, d: Direction)
    requires
        s.run_from(p, j, m, n, d),
        0 <= k <= j,
    ensures
        s.run_from(p, k, m, n, d),
        s.has_winning_run(p, k),
    decreases k,
{
    if k > 0 {
        lemma_run_prefix(s, p, j - 1, k - 1, m + d.step_m(), n + d.step_n(), d);
    }
}

/// The board's empty count is non-negative.
pub proof fn lemma_num_empty_nonneg(s: State, i: int)
    ensures
        0 <= s.empty_in_rows(i),
    decreases i,
{
    if i > 0 {
        lemma_num_empty_nonneg(s, i - 1);
        lemma_row_empty_count_nonneg(s.state@[i - 1]@, s.cols as int);
    }
}

/// A board with an empty in-bounds cell has a positive empty count.
pub proof fn lemma_num_empty_pos(s: State, m: int, n: int)
    requires
        s.wf(),
        s.in_bounds(m, n),
        s.at(m, n) is None,
    ensures
        s.num_empty() >= 1,
{
    lemma_num_empty_pos_helper(s, s.rows as int, m, n);
}

proof fn lemma_num_empty_pos_helper(s: State, i: int, m: int, n: int)
    requires
        s.wf(),
        s.in_bounds(m, n),
        s.at(m, n) is None,
        m < i <= s.rows,
    ensures
        s.empty_in_rows(i) >= 1,
    decreases i,
{
    if m < i - 1 {
        lemma_num_empty_pos_helper(s, i - 1, m, n);
        lemma_row_empty_count_nonneg(s.state@[i - 1]@, s.cols as int);
    } else {
        lemma_num_empty_nonneg(s, i - 1);
        lemma_row_empty_count_pos(s.state@[i - 1]@, s.cols as int, n);
    }
}

/// Occupying the one empty cell `(m, n)` lowers the board's empty count by
/// exactly one.
pub proof fn lemma_num_empty_one_move(a: State, b: State, m: int, n: int)
    requires
        a.wf(),
        b.wf(),
        a.rows == b.rows,
        a.cols == b.cols,
        a.in_bounds(m, n),
        a.at(m, n) is None,
        b.at(m, n) is Some,
        forall|i: int, j: int|
            a.in_bounds(i, j) && !(i == m && j == n) ==> #[trigger] a.at(i, j) == b.at(i, j),
    ensures
        b.num_empty() == a.num_empty() - 1,
{
    lemma_num_empty_one_move_helper(a, b, a.rows as int, m, n);
}

proof fn lemma_num_empty_one_move_helper(a: State, b: State, i: int, m: int, n: int)
    requires
        a.wf(),
        b.wf(),
        a.rows == b.rows,
        a.cols == b.cols,
        a.in_bounds(m, n),
        a.at(m, n) is None,
        b.at(m, n) is Some,
        forall|i2: int, j: int|
            a.in_bounds(i2, j) && !(i2 == m && j == n) ==> #[trigger] a.at(i2, j) == b.at(i2, j),
        0 <= i <= a.rows,
    ensures
        b.empty_in_rows(i) == a.empty_in_rows(i) - (if m < i {
            1int
        } else {
            0int
        }),
    decreases i,
{
    if i > 0 {
        lemma_num_empty_one_move_helper(a, b, i - 1, m, n);
        let ra = a.state@[i - 1]@;
        let rb = b.state@[i - 1]@;
        if i - 1 == m {
            assert forall|k: int| 0 <= k < a.cols as int && k != n implies ra[k] == rb[k] by {
                assert(a.at(i - 1, k) == b.at(i - 1, k));
            }
            assert(ra[n] == a.at(m, n));
            assert(rb[n] == b.at(m, n));
            lemma_row_empty_count_fill(ra, rb, a.cols as int, n);
        } else {
            assert forall|k: int| 0 <= k < a.cols as int implies ra[k] == rb[k] by {
                assert(a.at(i - 1, k) == b.at(i - 1, k));
            }
            lemma_row_empty_count_agree(ra, rb, a.cols as int);
        }
    }
}

impl Clone for State {
    /// A deep copy: the same position on a fresh grid.
    fn clone(&self) -> (r: State)
        ensures
            r.rows == self.rows,
            r.cols == self.cols,
            r.state@.len() == self.state@.len(),
            forall|i: int|
                0 <= i < self.state@.len() ==> (#[trigger] r.state@[i])@ == self.state@[i]@,
    {
        let mut grid: Vec<Vec<Option<Cell>>> = Vec::new();
        let mut m: usize = 0;
        while m < self.state.len()
            invariant
                m <= self.state@.len(),
                grid@.len() == m,
                forall|i: int| 0 <= i < m ==> (#[trigger] grid@[i])@ == self.state@[i]@,
            decreases self.state@.len() - m,
        {
            let row = &self.state[m];
            let mut new_row: Vec<Option<Cell>> = Vec::new();
            let mut n: usize = 0;
            while n < row.len()
                invariant
                    n <= row@.len(),
                    new_row@.len() == n,
                    forall|j: int| 0 <= j < n ==> #[trigger] new_row@[j] == row@[j],
                decreases row@.len() - n,
            {
                new_row.push(row[n]);
                n += 1;
            }
            assert(new_row@ =~= row@);
            grid.push(new_row);
            m += 1;
        }
        State { rows: self.rows, cols: self.cols, state: grid }
    }
}

} // verus!
