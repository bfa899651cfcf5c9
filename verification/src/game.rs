//! The episode runner: drives one game from a position to a terminal
//! outcome, recording each player's (state, move) trajectory and growing
//! the policy table lazily as new positions are reached.

use vstd::prelude::*;
use vstd::seq_lib::*;

use crate::credit::trajectory_ok;
use crate::finished_game::FinishedGame;
use crate::players::{Player, Players};
use crate::sampler;
use crate::sampler::SamplerError;
use crate::state::{lemma_num_empty_one_move, Cell, State};
use crate::weighted_state::{WeightedCell, WeightedState, WeightedStates, WEIGHT_MIN};

verus! {

/// One running game: the position on the board, whose turn it is, and the
/// trajectories recorded so far.
pub struct Game {
    pub current_state: State,
    pub current_player: Player,
    pub players: Players,
}

/// The transition one turn makes: the move `mv` was played by the player
/// whose turn it was, onto an empty cell; the pre-move position and the
/// move were appended to that player's trajectory; and the turn passed to
/// the next player in the cycle.
pub open spec fn turn_taken(g0: Game, g1: Game, mv: (usize, usize)) -> bool {
    let p = g0.current_player;
    let traj0 = g0.players.seq_of(p);
    let traj1 = g1.players.seq_of(p);
    &&& g0.current_state.in_bounds(mv.0 as int, mv.1 as int)
    &&& g0.current_state.at(mv.0 as int, mv.1 as int) is None
    &&& g1.current_state.rows == g0.current_state.rows
    &&& g1.current_state.cols == g0.current_state.cols
    &&& forall|i: int, j: int|
        g0.current_state.in_bounds(i, j)
            ==> #[trigger] g1.current_state.at(i, j) == (if i == mv.0 && j == mv.1 {
                Some(Cell::Player(p))
            } else {
                g0.current_state.at(i, j)
            })
    &&& g1.current_player == g0.players.upcoming
    &&& g1.players.upcoming == g0.players.upcoming.spec_successor()
    &&& traj1.len() == traj0.len() + 1
    &&& traj1.take(traj0.len() as int) == traj0
    &&& traj1.last().1 == mv
    &&& traj1.last().0.wf()
    &&& traj1.last().0.same_position(g0.current_state)
    &&& g1.players.seq_of(p.spec_successor()) == g0.players.seq_of(p.spec_successor())
}

impl Game {
    /// The board is well-formed.
    pub open spec fn wf(self) -> bool {
        self.current_state.wf()
    }

    /// A fresh game: the empty board, empty trajectories, and the first
    /// player of the turn cycle to move.
    pub fn new(rows: usize, cols: usize) -> (g: Game)
        ensures
            g.wf(),
            g.current_state.rows == rows,
            g.current_state.cols == cols,
            forall|m: int, n: int|
                g.current_state.in_bounds(m, n) ==> #[trigger] g.current_state.at(m, n) is None,
            g.current_player == Player::Crosses,
            g.players.upcoming == Player::Noughts,
            g.players.seq_of(Player::Crosses).len() == 0,
            g.players.seq_of(Player::Noughts).len() == 0,
    {
        let mut players = Players::default();
        let current_player = players.next();
        Game { current_state: State::empty(rows, cols), current_player, players }
    }

    /// The player completing a run of length at least `win_condition` on
    /// the current board, if any.
    pub fn winner(&self, win_condition: usize) -> (r: Option<Player>)
        requires
            self.wf(),
            win_condition >= 1,
        ensures
            match r {
                Some(p) => self.current_state.has_winning_run(p, win_condition as int),
                None => forall|p: Player|
                    !self.current_state.has_winning_run(p, win_condition as int),
            },
    {
        self.current_state.winner(win_condition)
    }

    /// True iff the current board still has an empty cell.
    pub fn playable(&self) -> (r: bool)
        requires
            self.wf(),
        ensures
            r == exists|m: int, n: int|
                self.current_state.in_bounds(m, n) && #[trigger] self.current_state.at(m, n) is None,
    {
        self.current_state.playable()
    }

    /// Puts the current player's mark on cell `(m, n)`, returning what the
    /// cell held before.
    pub fn play_move(&mut self, m: usize, n: usize) -> (prev: Option<Cell>)
        requires
            old(self).wf(),
            old(self).current_state.in_bounds(m as int, n as int),
        ensures
            final(self).wf(),
            final(self).current_state.rows == old(self).current_state.rows,
            final(self).current_state.cols == old(self).current_state.cols,
            prev == old(self).current_state.at(m as int, n as int),
            forall|i: int, j: int|
                old(self).current_state.in_bounds(i, j)
                    ==> #[trigger] final(self).current_state.at(i, j) == (if i == m && j == n {
                        Some(Cell::Player(old(self).current_player))
                    } else {
                        old(self).current_state.at(i, j)
                    }),
            final(self).current_player == old(self).current_player,
            final(self).players == old(self).players,
    {
        let prev = self.current_state.state[m][n];
        self.current_state.state[m][n] = Some(Cell::Player(self.current_player));
        prev
    }

    /// Chooses a move for the position recorded by `entry` by building the
    /// cumulative distribution of its weights and sampling a legal cell
    /// from it. Succeeds exactly when the entry's weights sum to a strictly
    /// positive value (always the case for a well-formed entry of a
    /// playable position).
    pub fn determine_move(entry: &WeightedState) -> (r: Result<(usize, usize), SamplerError>)
        requires
            entry.wf(),
        ensures
            match r {
                Ok(mv) => {
                    &&& entry.in_bounds(mv.0 as int, mv.1 as int)
                    &&& entry.board_at(mv.0 as int, mv.1 as int) is None
                },
                Err(e) => {
                    &&& e == SamplerError::ZeroWeightSum
                    &&& sampler::total_weight(*entry) <= 0
                },
            },
    {
        let board = entry.just_state();
        let totals = match sampler::cumulative(entry) {
            Ok(t) => t,
            Err(e) => {
                return Err(e);
            },
        };
        proof {
            let c = board.cols as int;
            assert((board.rows as int) * c >= 1) by (nonlinear_arith)
                requires
                    sampler::cum_weight(*entry, (entry.rows as int) * (entry.cols as int)) > 0,
                    (board.rows as int) == (entry.rows as int),
                    c == entry.cols as int,
                    sampler::cum_weight(*entry, 0) == 0,
                    (board.rows as int) * c == (entry.rows as int) * (entry.cols as int),
            ;
            assert forall|i: int| 0 < i < totals@.len()
                implies #[trigger] totals@[i] >= totals@[i - 1] by {
                assert(totals@[i] == sampler::cum_weight(*entry, i + 1));
                assert(totals@[i - 1] == sampler::cum_weight(*entry, i));
                lemma_flat_weight_nonneg(*entry, i);
            }
            assert forall|i: int|
                0 <= i < totals@.len() && board.at(i / c, i % c) is Some implies #[trigger] totals@[i]
                == (if i == 0 {
                    0int
                } else {
                    totals@[i - 1] as int
                }) by {
                lemma_flat_index_bounds(*entry, i);
                assert(board.at(i / c, i % c) == entry.board_at(i / c, i % c));
                assert(sampler::flat_weight(*entry, i) == 0);
                assert(totals@[i] == sampler::cum_weight(*entry, i + 1));
                assert(sampler::cum_weight(*entry, i + 1) == sampler::cum_weight(*entry, i)
                    + sampler::flat_weight(*entry, i));
                if i > 0 {
                    assert(totals@[i - 1] == sampler::cum_weight(*entry, i));
                } else {
                    assert(sampler::cum_weight(*entry, 0) == 0);
                }
            }
            assert(totals@.last() == sampler::cum_weight(
                *entry,
                (entry.rows as int) * (entry.cols as int),
            ));
            assert(totals@.last() >= 1);
        }
        let mv = sampler::sample(&totals, &board);
        proof {
            assert(entry.board_at(mv.0 as int, mv.1 as int) == board.at(mv.0 as int, mv.1 as int));
        }
        Ok(mv)
    }

    /// Plays one turn: looks the current position up in the policy table,
    /// samples a move from its weights, records the (position, move) pair
    /// in the mover's trajectory, applies the move, lazily creates a table
    /// entry for the successor position, and passes the turn.
    pub fn play(&mut self, weighted_states: &mut WeightedStates)
        requires
            old(self).wf(),
            old(weighted_states).wf(),
            old(self).current_state.rows == old(weighted_states).rows,
            old(self).current_state.cols == old(weighted_states).cols,
            exists|m: int, n: int|
                old(self).current_state.in_bounds(m, n)
                    && #[trigger] old(self).current_state.at(m, n) is None,
            old(weighted_states).contains_state(old(self).current_state),
        ensures
            final(self).wf(),
            final(self).current_state.rows == old(self).current_state.rows,
            final(self).current_state.cols == old(self).current_state.cols,
            final(weighted_states).wf(),
            final(weighted_states).rows == old(weighted_states).rows,
            final(weighted_states).cols == old(weighted_states).cols,
            old(weighted_states).states@.len() <= final(weighted_states).states@.len()
                <= old(weighted_states).states@.len() + 1,
            forall|i: int|
                0 <= i < old(weighted_states).states@.len()
                    ==> #[trigger] final(weighted_states).states@[i]
                        == old(weighted_states).states@[i],
            final(weighted_states).contains_state(final(self).current_state),
            final(weighted_states).states@.len() == old(weighted_states).states@.len()
                ==> *final(weighted_states) == *old(weighted_states),
            final(weighted_states).states@.len() == old(weighted_states).states@.len() + 1
                ==> final(weighted_states).states@.last().fresh_for(final(self).current_state),
            exists|mv: (usize, usize)| turn_taken(*old(self), *final(self), mv),
            final(self).current_state.num_empty() == old(self).current_state.num_empty() - 1,
    {
        let idx = match weighted_states.find_mut(&self.current_state) {
            Some(i) => i,
            None => {
                proof {
                    assert(false);
                }
                0
            },
        };
        let entry = weighted_states.entry(idx);
        proof {
            assert(entry.wf());
            assert(entry.matches_state(self.current_state));
        }
        let mv = match Self::determine_move(entry) {
            Ok(mv) => mv,
            Err(_) => {
                proof {
                    let (m0, n0) = choose|m0: int, n0: int|
                        self.current_state.in_bounds(m0, n0) && #[trigger] self.current_state.at(
                            m0,
                            n0,
                        ) is None;
                    sampler::lemma_playable_total_positive(*entry, self.current_state, m0, n0);
                    assert(false);
                }
                (0, 0)
            },
        };
        proof {
            assert(entry.board_at(mv.0 as int, mv.1 as int) == self.current_state.at(
                mv.0 as int,
                mv.1 as int,
            ));
        }
        let ghost pre_move = *self;
        let snapshot = self.current_state.clone();
        let mover = self.current_player;
        self.players.record(mover, snapshot, mv.0, mv.1);
        self.play_move(mv.0, mv.1);
        weighted_states.ensure_entry(&self.current_state);
        self.current_player = self.players.next();
        proof {
            let g0 = *old(self);
            let g1 = *self;
            let traj0 = g0.players.seq_of(mover);
            let traj1 = g1.players.seq_of(mover);
            assert(traj1 == traj0.push((snapshot, mv)));
            assert(traj1.take(traj0.len() as int) =~= traj0);
            assert(traj1.last() == (snapshot, mv));
            assert(snapshot.wf());
            assert(snapshot.same_position(g0.current_state));
            assert(turn_taken(g0, g1, mv));
            lemma_num_empty_one_move(
                g0.current_state,
                g1.current_state,
                mv.0 as int,
                mv.1 as int,
            );
        }
    }

    /// Runs the game to a terminal outcome: each turn first decides the
    /// game (a winning run ends it, a full board draws it), otherwise one
    /// move is played. The returned outcome carries both finished
    /// trajectories, every position of which the (possibly grown) policy
    /// table is guaranteed to hold — exactly what credit assignment
    /// requires. The game itself keeps the terminal board and hands its
    /// trajectories over to the outcome.
    pub fn play_until_finish(&mut self, win_condition: usize, weighted_states: &mut WeightedStates) -> (r: FinishedGame)
        requires
            win_condition >= 1,
            old(self).wf(),
            old(weighted_states).wf(),
            old(self).current_state.rows == old(weighted_states).rows,
            old(self).current_state.cols == old(weighted_states).cols,
            old(weighted_states).contains_state(old(self).current_state),
            trajectory_ok(old(self).players.seq_of(Player::Crosses), *old(weighted_states)),
            trajectory_ok(old(self).players.seq_of(Player::Noughts), *old(weighted_states)),
        ensures
            final(weighted_states).wf(),
            final(weighted_states).rows == old(weighted_states).rows,
            final(weighted_states).cols == old(weighted_states).cols,
            old(weighted_states).states@.len() <= final(weighted_states).states@.len(),
            forall|i: int|
                0 <= i < old(weighted_states).states@.len()
                    ==> #[trigger] final(weighted_states).states@[i]
                        == old(weighted_states).states@[i],
            final(self).wf(),
            final(self).current_state.rows == old(self).current_state.rows,
            final(self).current_state.cols == old(self).current_state.cols,
            trajectory_ok(r.players.seq_of(Player::Crosses), *final(weighted_states)),
            trajectory_ok(r.players.seq_of(Player::Noughts), *final(weighted_states)),
            old(self).players.seq_of(Player::Crosses).is_prefix_of(
                r.players.seq_of(Player::Crosses),
            ),
            old(self).players.seq_of(Player::Noughts).is_prefix_of(
                r.players.seq_of(Player::Noughts),
            ),
            final(weighted_states).states@.len() - old(weighted_states).states@.len() <= (
            r.players.seq_of(Player::Crosses).len() - old(self).players.seq_of(
                Player::Crosses,
            ).len()) + (r.players.seq_of(Player::Noughts).len() - old(self).players.seq_of(
                Player::Noughts,
            ).len()),
            forall|i: int, m: int, n: int|
                old(weighted_states).states@.len() <= i < final(weighted_states).states@.len()
                    && 0 <= m < old(weighted_states).rows && 0 <= n < old(weighted_states).cols
                    ==> ((#[trigger] final(weighted_states).states@[i].at(m, n)) is Weight
                        ==> final(weighted_states).states@[i].at(m, n) == WeightedCell::Weight(
                        WEIGHT_MIN,
                    )),
            match r.winner {
                Some(p) => final(self).current_state.has_winning_run(p, win_condition as int),
                None => {
                    &&& forall|p: Player|
                        !final(self).current_state.has_winning_run(p, win_condition as int)
                    &&& forall|m: int, n: int|
                        final(self).current_state.in_bounds(m, n)
                            ==> #[trigger] final(self).current_state.at(m, n) is Some
                },
            },
            final(self).players.seq_of(Player::Crosses).len() == 0,
            final(self).players.seq_of(Player::Noughts).len() == 0,
    {
        proof {
            crate::state::lemma_num_empty_nonneg(self.current_state, self.current_state.rows as int);
        }
        loop
            invariant
                win_condition >= 1,
                self.wf(),
                weighted_states.wf(),
                self.current_state.rows == old(self).current_state.rows,
                self.current_state.cols == old(self).current_state.cols,
                weighted_states.rows == old(weighted_states).rows,
                weighted_states.cols == old(weighted_states).cols,
                self.current_state.rows == weighted_states.rows,
                self.current_state.cols == weighted_states.cols,
                weighted_states.contains_state(self.current_state),
                old(weighted_states).states@.len() <= weighted_states.states@.len(),
                forall|i: int|
                    0 <= i < old(weighted_states).states@.len()
                        ==> #[trigger] weighted_states.states@[i] == old(weighted_states).states@[i],
                trajectory_ok(self.players.seq_of(Player::Crosses), *weighted_states),
                trajectory_ok(self.players.seq_of(Player::Noughts), *weighted_states),
                old(self).players.seq_of(Player::Crosses).is_prefix_of(
                    self.players.seq_of(Player::Crosses),
                ),
                old(self).players.seq_of(Player::Noughts).is_prefix_of(
                    self.players.seq_of(Player::Noughts),
                ),
                weighted_states.states@.len() - old(weighted_states).states@.len() <= (
                self.players.seq_of(Player::Crosses).len() - old(self).players.seq_of(
                    Player::Crosses,
                ).len()) + (self.players.seq_of(Player::Noughts).len() - old(self).players.seq_of(
                    Player::Noughts,
                ).len()),
                forall|i: int, m: int, n: int|
                    old(weighted_states).states@.len() <= i < weighted_states.states@.len()
                        && 0 <= m < old(weighted_states).rows && 0 <= n < old(weighted_states).cols
                        ==> ((#[trigger] weighted_states.states@[i].at(m, n)) is Weight
                            ==> weighted_states.states@[i].at(m, n) == WeightedCell::Weight(
                            WEIGHT_MIN,
                        )),
                self.current_state.num_empty() >= 0,
            decreases self.current_state.num_empty(),
        {
            let maybe_winner = self.winner(win_condition);
            if let Some(p) = maybe_winner {
                let mut finished_players = Players::default();
                core::mem::swap(&mut self.players, &mut finished_players);
                return FinishedGame::new(Some(p), finished_players);
            }
            if !self.playable() {
                proof {
                    assert forall|m: int, n: int| self.current_state.in_bounds(m, n)
                        implies #[trigger] self.current_state.at(m, n) is Some by {
                        if self.current_state.at(m, n) is None {
                            assert(exists|m2: int, n2: int|
                                self.current_state.in_bounds(m2, n2)
                                    && #[trigger] self.current_state.at(m2, n2) is None);
                        }
                    }
                }
                let mut finished_players = Players::default();
                core::mem::swap(&mut self.players, &mut finished_players);
                return FinishedGame::new(None, finished_players);
            }
            let ghost pre_self = *self;
            let ghost pre_table = *weighted_states;
            proof {
                let (m0, n0) = choose|m0: int, n0: int|
                    self.current_state.in_bounds(m0, n0) && #[trigger] self.current_state.at(
                        m0,
                        n0,
                    ) is None;
                crate::state::lemma_num_empty_pos(self.current_state, m0, n0);
            }
            self.play(weighted_states);
            proof {
                let mv = choose|mv: (usize, usize)| turn_taken(pre_self, *self, mv);
                let mover = pre_self.current_player;
                lemma_trajectory_ok_grows(
                    pre_self.players.seq_of(mover),
                    pre_table,
                    *weighted_states,
                );
                lemma_trajectory_ok_grows(
                    pre_self.players.seq_of(mover.spec_successor()),
                    pre_table,
                    *weighted_states,
                );
                let traj1 = self.players.seq_of(mover);
                let traj0 = pre_self.players.seq_of(mover);
                assert(trajectory_ok(traj1, *weighted_states)) by {
                    assert forall|j: int| 0 <= j < traj1.len() implies {
                        let s = (#[trigger] traj1[j]).0;
                        let mv2 = traj1[j].1;
                        &&& s.wf()
                        &&& s.rows == weighted_states.rows
                        &&& s.cols == weighted_states.cols
                        &&& weighted_states.contains_state(s)
                        &&& s.in_bounds(mv2.0 as int, mv2.1 as int)
                        &&& s.at(mv2.0 as int, mv2.1 as int) is None
                    } by {
                        if j < traj0.len() {
                            assert(traj1[j] == traj1.take(traj0.len() as int)[j]);
                            assert(traj1[j] == traj0[j]);
                        } else {
                            assert(traj1[j] == traj1.last());
                            let s = traj1[j].0;
                            assert(s.same_position(pre_self.current_state));
                            assert(weighted_states.contains_state(pre_self.current_state)) by {
                                let i = choose|i: int|
                                    0 <= i < pre_table.states@.len() && (
                                    #[trigger] pre_table.states@[i]).matches_state(
                                        pre_self.current_state,
                                    );
                                assert(weighted_states.states@[i].matches_state(
                                    pre_self.current_state,
                                ));
                            }
                            lemma_contains_same_position(
                                *weighted_states,
                                pre_self.current_state,
                                s,
                            );
                        }
                    }
                }
                assert(traj0.is_prefix_of(traj1)) by {
                    assert(traj0 =~= traj1.subrange(0, traj0.len() as int)) by {
                        assert(traj1.take(traj0.len() as int) == traj0);
                    }
                }
                lemma_prefix_transitive(
                    old(self).players.seq_of(mover),
                    traj0,
                    traj1,
                );
                assert forall|i: int, m: int, n: int|
                    old(weighted_states).states@.len() <= i < weighted_states.states@.len() && 0
                        <= m < old(weighted_states).rows && 0 <= n < old(weighted_states).cols
                        implies ((#[trigger] weighted_states.states@[i].at(m, n)) is Weight
                        ==> weighted_states.states@[i].at(m, n) == WeightedCell::Weight(
                        WEIGHT_MIN,
                    )) by {
                    if i < pre_table.states@.len() {
                        assert(weighted_states.states@[i] == pre_table.states@[i]);
                    } else {
                        assert(weighted_states.states@.len() == pre_table.states@.len() + 1);
                        assert(i == weighted_states.states@.len() - 1);
                        assert(weighted_states.states@.last().fresh_for(self.current_state));
                        assert(weighted_states.states@[i].at(m, n) == (
                        match self.current_state.at(m, n) {
                            Some(c) => WeightedCell::Cell(c),
                            None => WeightedCell::Weight(WEIGHT_MIN),
                        }));
                    }
                }
            }
        }
    }
}

/// A trajectory acceptable against a table stays acceptable when the table
/// only grows (its existing entries untouched).
proof fn lemma_trajectory_ok_grows(
    traj: Seq<(State, (usize, usize))>,
    w1: WeightedStates,
    w2: WeightedStates,
)
    requires
        trajectory_ok(traj, w1),
        w1.rows == w2.rows,
        w1.cols == w2.cols,
        w1.states@.len() <= w2.states@.len(),
        forall|i: int| 0 <= i < w1.states@.len() ==> #[trigger] w2.states@[i] == w1.states@[i],
    ensures
        trajectory_ok(traj, w2),
{
    assert forall|j: int| 0 <= j < traj.len() implies {
        let s = (#[trigger] traj[j]).0;
        let mv = traj[j].1;
        &&& s.wf()
        &&& s.rows == w2.rows
        &&& s.cols == w2.cols
        &&& w2.contains_state(s)
        &&& s.in_bounds(mv.0 as int, mv.1 as int)
        &&& s.at(mv.0 as int, mv.1 as int) is None
    } by {
        let s = traj[j].0;
        let i = choose|i: int|
            0 <= i < w1.states@.len() && (#[trigger] w1.states@[i]).matches_state(s);
        assert(w2.states@[i].matches_state(s));
    }
}

/// A table containing a position contains every value recording the same
/// position.
proof fn lemma_contains_same_position(ws: WeightedStates, a: State, b: State)
    requires
        ws.contains_state(a),
        b.same_position(a),
    ensures
        ws.contains_state(b),
{
    let i = choose|i: int| 0 <= i < ws.states@.len() && (#[trigger] ws.states@[i]).matches_state(a);
    let e = ws.states@[i];
    assert(e.matches_state(b)) by {
        assert forall|m: int, n: int| e.in_bounds(m, n) implies #[trigger] e.board_at(m, n)
            == b.at(m, n) by {
            assert(e.board_at(m, n) == a.at(m, n));
            assert(b.at(m, n) == a.at(m, n));
        }
    }
}

/// Sequence prefixes compose.
proof fn lemma_prefix_transitive<A>(a: Seq<A>, b: Seq<A>, c: Seq<A>)
    requires
        a.is_prefix_of(b),
        b.is_prefix_of(c),
    ensures
        a.is_prefix_of(c),
{
    assert(a =~= c.subrange(0, a.len() as int)) by {
        assert forall|i: int| 0 <= i < a.len() implies a[i] == c.subrange(0, a.len() as int)[i] by {
            assert(a[i] == b.subrange(0, b.len() as int)[i]);
        }
    }
}

/// The flat weight of any index of a well-formed entry is non-negative,
/// and the index decodes to an in-bounds cell.
proof fn lemma_flat_index_bounds(ws: WeightedState, i: int)
    requires
        ws.wf(),
        0 <= i < (ws.rows as int) * (ws.cols as int),
    ensures
        ws.in_bounds(i / (ws.cols as int), i % (ws.cols as int)),
{
    let c = ws.cols as int;
    assert(c > 0) by (nonlinear_arith)
        requires
            (ws.rows as int) * c > i,
            i >= 0,
            c >= 0,
    ;
    vstd::arithmetic::div_mod::lemma_mod_division_less_than_divisor(i, c);
    vstd::arithmetic::div_mod::lemma_fundamental_div_mod(i, c);
    assert(i / c >= 0) by (nonlinear_arith)
        requires
            c > 0,
            i >= 0,
            i == (i / c) * c + (i % c),
            0 <= i % c < c,
    ;
    assert(c * (ws.rows as int) == (ws.rows as int) * c) by (nonlinear_arith);
    vstd::arithmetic::div_mod::lemma_multiply_divide_lt(i, c, ws.rows as int);
}

/// The flat weight of any in-range index of a well-formed entry is
/// non-negative.
proof fn lemma_flat_weight_nonneg(ws: WeightedState, i: int)
    requires
        ws.wf(),
        0 <= i < (ws.rows as int) * (ws.cols as int),
    ensures
        sampler::flat_weight(ws, i) >= 0,
{
    lemma_flat_index_bounds(ws, i);
}

} // verus!
