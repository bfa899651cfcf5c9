//! Credit assignment: after an episode, every (position, move) pair on the
//! winner's trajectories has its weight nudged up, every pair on a loser's
//! nudged down, both clamped to the valid weight range; a drawn episode
//! leaves the table untouched (the documented draw rule: no update).

use vstd::prelude::*;

use crate::finished_game::FinishedGame;
use crate::players::Player;
use crate::state::State;
use crate::weighted_state::{
    entries_same_position, WeightedCell, WeightedState, WeightedStates, WEIGHT_MAX, WEIGHT_MIN,
};

verus! {

/// A trajectory that credit assignment can consume against the table `ws`:
/// every recorded position is well-formed, has the table's dimensions, is
/// present in the table (the episode runner inserted it), and its recorded
/// move targets an empty in-bounds cell of that position.
pub open spec fn trajectory_ok(traj: Seq<(State, (usize, usize))>, ws: WeightedStates) -> bool {
    forall|j: int|
        0 <= j < traj.len() ==> {
            let s = (#[trigger] traj[j]).0;
            let mv = traj[j].1;
            &&& s.wf()
            &&& s.rows == ws.rows
            &&& s.cols == ws.cols
            &&& ws.contains_state(s)
            &&& s.in_bounds(mv.0 as int, mv.1 as int)
            &&& s.at(mv.0 as int, mv.1 as int) is None
        }
}

/// One clamped adjustment step: the weight moves by `delta` and is held
/// inside the valid range.
pub open spec fn bump(w: int, delta: int) -> int {
    let x = w + delta;
    if x < WEIGHT_MIN as int {
        WEIGHT_MIN as int
    } else if x > WEIGHT_MAX as int {
        WEIGHT_MAX as int
    } else {
        x
    }
}

/// The closed form of `cnt` clamped adjustment steps of the unit `delta`:
/// additive movement toward the respective clamp bound.
pub open spec fn bumped(w: int, cnt: int, delta: int) -> int {
    if delta > 0 {
        if w + cnt > WEIGHT_MAX as int {
            WEIGHT_MAX as int
        } else {
            w + cnt
        }
    } else if delta < 0 {
        if w - cnt < WEIGHT_MIN as int {
            WEIGHT_MIN as int
        } else {
            w - cnt
        }
    } else {
        w
    }
}

/// How often the trajectory touches cell `(m, n)` of the position recorded
/// by entry `e`: the number of its pairs whose position is `e`'s and whose
/// move is `(m, n)`.
pub open spec fn touch_count(
    traj: Seq<(State, (usize, usize))>,
    e: WeightedState,
    m: int,
    n: int,
) -> int
    decreases traj.len(),
{
    if traj.len() == 0 {
        0
    } else {
        touch_count(traj.drop_last(), e, m, n) + (if e.matches_state(traj.last().0)
            && traj.last().1.0 == m && traj.last().1.1 == n {
            1int
        } else {
            0int
        })
    }
}

/// The touch count lies between 0 and the trajectory's length.
pub proof fn lemma_touch_count_bounds(
    traj: Seq<(State, (usize, usize))>,
    e: WeightedState,
    m: int,
    n: int,
)
    ensures
        0 <= touch_count(traj, e, m, n) <= traj.len(),
    decreases traj.len(),
{
    if traj.len() > 0 {
        lemma_touch_count_bounds(traj.drop_last(), e, m, n);
    }
}

/// The touch count depends on the entry only through the position it
/// records: entries with the same dimensions and occupancies are touched
/// alike.
pub proof fn lemma_touch_count_same_board(
    traj: Seq<(State, (usize, usize))>,
    e1: WeightedState,
    e2: WeightedState,
    m: int,
    n: int,
)
    requires
        e1.rows == e2.rows,
        e1.cols == e2.cols,
        forall|i: int, j: int| e1.in_bounds(i, j) ==> #[trigger] e1.board_at(i, j) == e2.board_at(i, j),
    ensures
        touch_count(traj, e1, m, n) == touch_count(traj, e2, m, n),
    decreases traj.len(),
{
    if traj.len() > 0 {
        lemma_touch_count_same_board(traj.drop_last(), e1, e2, m, n);
        let s = traj.last().0;
        assert(e1.matches_state(s) == e2.matches_state(s)) by {
            if e1.matches_state(s) {
                assert forall|i: int, j: int| e2.in_bounds(i, j)
                    implies #[trigger] e2.board_at(i, j) == s.at(i, j) by {
                    assert(e1.board_at(i, j) == s.at(i, j));
                    assert(e1.board_at(i, j) == e2.board_at(i, j));
                }
            }
            if e2.matches_state(s) {
                assert forall|i: int, j: int| e1.in_bounds(i, j)
                    implies #[trigger] e1.board_at(i, j) == s.at(i, j) by {
                    assert(e1.board_at(i, j) == e2.board_at(i, j));
                }
            }
        }
    }
}

/// The closed form stays inside the clamp bounds.
pub proof fn lemma_bumped_bounds(w: int, cnt: int, delta: int)
    requires
        WEIGHT_MIN as int <= w <= WEIGHT_MAX as int,
        cnt >= 0,
    ensures
        WEIGHT_MIN as int <= bumped(w, cnt, delta) <= WEIGHT_MAX as int,
{
}

/// One more clamped step extends the closed form by one.
pub proof fn lemma_bumped_step(w: int, cnt: int, delta: int)
    requires
        WEIGHT_MIN as int <= w <= WEIGHT_MAX as int,
        cnt >= 0,
        delta == 1 || delta == -1,
    ensures
        bump(bumped(w, cnt, delta), delta) == bumped(w, cnt + 1, delta),
{
}

/// What one trajectory's worth of credit leaves in cell `(m, n)` of an
/// entry that started as `e`: occupied cells are untouched, a weight is
/// adjusted once per touch, clamped.
pub open spec fn one_traj_cell(
    e: WeightedState,
    traj: Seq<(State, (usize, usize))>,
    delta: int,
    m: int,
    n: int,
) -> WeightedCell {
    match e.at(m, n) {
        WeightedCell::Cell(c) => WeightedCell::Cell(c),
        WeightedCell::Weight(w) => WeightedCell::Weight(
            bumped(w as int, touch_count(traj, e, m, n), delta) as isize,
        ),
    }
}

/// What the full credit-assignment pass leaves in cell `(m, n)` of an
/// entry that started as `e`: first the Crosses trajectory is folded in
/// with reward `dc`, then the Noughts trajectory with reward `dn`.
pub open spec fn credited_cell(
    e: WeightedState,
    traj_crosses: Seq<(State, (usize, usize))>,
    traj_noughts: Seq<(State, (usize, usize))>,
    dc: int,
    dn: int,
    m: int,
    n: int,
) -> WeightedCell {
    match e.at(m, n) {
        WeightedCell::Cell(c) => WeightedCell::Cell(c),
        WeightedCell::Weight(w) => WeightedCell::Weight(
            bumped(
                bumped(w as int, touch_count(traj_crosses, e, m, n), dc),
                touch_count(traj_noughts, e, m, n),
                dn,
            ) as isize,
        ),
    }
}

/// The reward a player's moves earn from the outcome: winners' moves gain,
/// losers' moves lose, a draw rewards nobody.
pub open spec fn reward(winner: Option<Player>, p: Player) -> int {
    match winner {
        Some(w) => if w == p {
            1
        } else {
            -1
        },
        None => 0,
    }
}

/// Law: after a decisive outcome, every weight touched along the winner's
/// path (and not the loser's) moves toward the upper clamp bound — it
/// gains at least one clamped step and never falls — while every weight
/// touched only along the loser's path moves toward the lower clamp bound;
/// a weight no trajectory touches is unchanged. (Under the documented draw
/// rule the whole table is unchanged: see `apply_credit_assignment`.)
/// Here `tw` is the winning player's trajectory and `tl` the losing
/// player's, so the rewards folded in are +1 and -1.
pub proof fn lemma_credit_moves_toward_bounds(
    e: WeightedState,
    tw: Seq<(State, (usize, usize))>,
    tl: Seq<(State, (usize, usize))>,
    m: int,
    n: int,
    out: WeightedCell,
)
    requires
        e.wf(),
        e.in_bounds(m, n),
        e.at(m, n) is Weight,
        out == credited_cell(e, tw, tl, 1, -1, m, n) || out == credited_cell(e, tl, tw, -1, 1, m, n),
    ensures
        out is Weight,
        ({
            let w = e.at(m, n).weight_of();
            let up = if w + 1 <= WEIGHT_MAX as int {
                w + 1
            } else {
                WEIGHT_MAX as int
            };
            let down = if w - 1 >= WEIGHT_MIN as int {
                w - 1
            } else {
                WEIGHT_MIN as int
            };
            &&& (touch_count(tw, e, m, n) >= 1 && touch_count(tl, e, m, n) == 0 ==> out.weight_of()
                >= up && out.weight_of() >= w)
            &&& (touch_count(tl, e, m, n) >= 1 && touch_count(tw, e, m, n) == 0 ==> out.weight_of()
                <= down && out.weight_of() <= w)
            &&& (touch_count(tw, e, m, n) == 0 && touch_count(tl, e, m, n) == 0 ==> out.weight_of()
                == w)
        }),
{
    let w = e.at(m, n).weight_of();
    assert(WEIGHT_MIN <= w <= WEIGHT_MAX);
    lemma_touch_count_bounds(tw, e, m, n);
    lemma_touch_count_bounds(tl, e, m, n);
    lemma_bumped_bounds(w, touch_count(tw, e, m, n), 1);
    lemma_bumped_bounds(w, touch_count(tl, e, m, n), -1);
}

/// Boards are untouched by a trajectory's worth of credit: the adjusted
/// table shows the same occupancies as the one it came from.
proof fn lemma_boards_after_traj(
    o: WeightedStates,
    b: WeightedStates,
    traj: Seq<(State, (usize, usize))>,
    delta: int,
)
    requires
        b.states@.len() == o.states@.len(),
        b.rows == o.rows,
        b.cols == o.cols,
        forall|e: int, m: int, n: int|
            0 <= e < o.states@.len() && 0 <= m < o.rows && 0 <= n < o.cols
                ==> #[trigger] b.states@[e].at(m, n) == one_traj_cell(o.states@[e], traj, delta, m, n),
    ensures
        forall|e: int, m: int, n: int|
            0 <= e < o.states@.len() && 0 <= m < o.rows && 0 <= n < o.cols
                ==> #[trigger] b.states@[e].board_at(m, n) == o.states@[e].board_at(m, n),
{
    assert forall|e: int, m: int, n: int|
        0 <= e < o.states@.len() && 0 <= m < o.rows && 0 <= n < o.cols
            implies #[trigger] b.states@[e].board_at(m, n) == o.states@[e].board_at(m, n) by {
        assert(b.states@[e].at(m, n) == one_traj_cell(o.states@[e], traj, delta, m, n));
    }
}

/// A trajectory acceptable against a table stays acceptable against a
/// table of the same shape showing the same occupancies.
proof fn lemma_trajectory_ok_same_boards(
    traj: Seq<(State, (usize, usize))>,
    a: WeightedStates,
    b: WeightedStates,
)
    requires
        trajectory_ok(traj, a),
        b.wf(),
        b.rows == a.rows,
        b.cols == a.cols,
        b.states@.len() == a.states@.len(),
        forall|e: int, m: int, n: int|
            0 <= e < a.states@.len() && 0 <= m < a.rows && 0 <= n < a.cols
                ==> #[trigger] b.states@[e].board_at(m, n) == a.states@[e].board_at(m, n),
    ensures
        trajectory_ok(traj, b),
{
    assert forall|j: int| 0 <= j < traj.len() implies {
        let s = (#[trigger] traj[j]).0;
        let mv = traj[j].1;
        &&& s.wf()
        &&& s.rows == b.rows
        &&& s.cols == b.cols
        &&& b.contains_state(s)
        &&& s.in_bounds(mv.0 as int, mv.1 as int)
        &&& s.at(mv.0 as int, mv.1 as int) is None
    } by {
        let s = traj[j].0;
        let e = choose|e: int|
            0 <= e < a.states@.len() && (#[trigger] a.states@[e]).matches_state(s);
        assert(b.states@[e].matches_state(s)) by {
            assert forall|m: int, n: int| b.states@[e].in_bounds(m, n)
                implies #[trigger] b.states@[e].board_at(m, n) == s.at(m, n) by {
                assert(b.states@[e].board_at(m, n) == a.states@[e].board_at(m, n));
                assert(a.states@[e].board_at(m, n) == s.at(m, n));
            }
        }
    }
}

/// A table of well-formed entries showing the same occupancies as a
/// well-formed table is itself well-formed (no two entries can have come
/// to record the same position).
proof fn lemma_wf_same_boards(a: WeightedStates, b: WeightedStates)
    requires
        a.wf(),
        b.rows == a.rows,
        b.cols == a.cols,
        b.states@.len() == a.states@.len(),
        forall|e: int| 0 <= e < b.states@.len() ==> (#[trigger] b.states@[e]).wf(),
        forall|e: int|
            0 <= e < b.states@.len()
                ==> (#[trigger] b.states@[e]).rows == b.rows && b.states@[e].cols == b.cols,
        forall|e: int, m: int, n: int|
            0 <= e < a.states@.len() && 0 <= m < a.rows && 0 <= n < a.cols
                ==> #[trigger] b.states@[e].board_at(m, n) == a.states@[e].board_at(m, n),
    ensures
        b.wf(),
{
    assert forall|i: int, j: int|
        0 <= i < b.states@.len() && 0 <= j < b.states@.len() && i != j
            implies !entries_same_position(#[trigger] b.states@[i], #[trigger] b.states@[j]) by {
        if entries_same_position(b.states@[i], b.states@[j]) {
            assert(entries_same_position(a.states@[i], a.states@[j])) by {
                assert forall|m: int, n: int| a.states@[i].in_bounds(m, n)
                    implies #[trigger] a.states@[i].board_at(m, n)
                        == a.states@[j].board_at(m, n) by {
                    assert(b.states@[i].board_at(m, n) == a.states@[i].board_at(m, n));
                    assert(b.states@[j].board_at(m, n) == a.states@[j].board_at(m, n));
                    assert(b.states@[i].board_at(m, n) == b.states@[j].board_at(m, n));
                }
            }
        }
    }
}

/// Folds one trajectory into the table with the unit reward `delta`: each
/// pair's position is looked up and the weight of its move's cell takes
/// one clamped step.
fn apply_trajectory(
    weighted_states: &mut WeightedStates,
    traj: &Vec<(State, (usize, usize))>,
    delta: isize,
)
    requires
        old(weighted_states).wf(),
        trajectory_ok(traj@, *old(weighted_states)),
        delta == 1isize || delta == -1isize,
    ensures
        final(weighted_states).wf(),
        final(weighted_states).rows == old(weighted_states).rows,
        final(weighted_states).cols == old(weighted_states).cols,
        final(weighted_states).states@.len() == old(weighted_states).states@.len(),
        forall|e: int, m: int, n: int|
            0 <= e < old(weighted_states).states@.len() && 0 <= m < old(weighted_states).rows
                && 0 <= n < old(weighted_states).cols
                ==> #[trigger] final(weighted_states).states@[e].at(m, n) == one_traj_cell(
                    old(weighted_states).states@[e],
                    traj@,
                    delta as int,
                    m,
                    n,
                ),
{
    let len = traj.len();
    let rows = weighted_states.rows;
    let cols = weighted_states.cols;
    let mut j: usize = 0;
    while j < len
        invariant
            old(weighted_states).wf(),
            weighted_states.wf(),
            rows == old(weighted_states).rows,
            cols == old(weighted_states).cols,
            weighted_states.rows == rows,
            weighted_states.cols == cols,
            weighted_states.states@.len() == old(weighted_states).states@.len(),
            trajectory_ok(traj@, *old(weighted_states)),
            len == traj@.len(),
            j <= len,
            delta == 1isize || delta == -1isize,
            forall|e: int, m: int, n: int|
                0 <= e < old(weighted_states).states@.len() && 0 <= m < rows && 0 <= n < cols
                    ==> #[trigger] weighted_states.states@[e].at(m, n) == one_traj_cell(
                        old(weighted_states).states@[e],
                        traj@.take(j as int),
                        delta as int,
                        m,
                        n,
                    ),
            forall|e: int, m: int, n: int|
                0 <= e < old(weighted_states).states@.len() && 0 <= m < rows && 0 <= n < cols
                    ==> #[trigger] weighted_states.states@[e].board_at(m, n)
                        == old(weighted_states).states@[e].board_at(m, n),
        decreases len - j,
    {
        let s = &traj[j].0;
        let mv = traj[j].1;
        proof {
            let e0 = choose|e0: int|
                0 <= e0 < old(weighted_states).states@.len() && (
                #[trigger] old(weighted_states).states@[e0]).matches_state(*s);
            assert(weighted_states.states@[e0].matches_state(*s)) by {
                assert forall|m2: int, n2: int| weighted_states.states@[e0].in_bounds(m2, n2)
                    implies #[trigger] weighted_states.states@[e0].board_at(m2, n2) == s.at(
                    m2,
                    n2,
                ) by {
                    assert(weighted_states.states@[e0].board_at(m2, n2) == old(
                        weighted_states,
                    ).states@[e0].board_at(m2, n2));
                    assert(old(weighted_states).states@[e0].board_at(m2, n2) == s.at(m2, n2));
                }
            }
            assert(weighted_states.contains_state(*s));
        }
        let idx = match weighted_states.find_mut(s) {
            Some(i) => i,
            None => {
                proof {
                    assert(false);
                }
                0
            },
        };
        let ghost pre = *weighted_states;
        proof {
            assert(pre.states@[idx as int].wf());
            assert(pre.states@[idx as int].board_at(mv.0 as int, mv.1 as int) == s.at(
                mv.0 as int,
                mv.1 as int,
            ));
        }
        let cur = weighted_states.states[idx].state[mv.0][mv.1];
        let newcell = match cur {
            WeightedCell::Weight(w) => {
                let x = w + delta;
                let clamped = if x < WEIGHT_MIN {
                    WEIGHT_MIN
                } else if x > WEIGHT_MAX {
                    WEIGHT_MAX
                } else {
                    x
                };
                WeightedCell::Weight(clamped)
            },
            WeightedCell::Cell(_) => {
                proof {
                    assert(false);
                }
                cur
            },
        };
        weighted_states.states[idx].state[mv.0][mv.1] = newcell;
        proof {
            let o = *old(weighted_states);
            let ji = j as int;
            let ei = idx as int;
            let mi = mv.0 as int;
            let ni = mv.1 as int;
            let tj = traj@.take(ji);
            let tj1 = traj@.take(ji + 1);
            assert(tj1.drop_last() =~= tj);
            assert(tj1.last() == traj@[ji]);
            assert(traj@[ji].0 == *s);
            assert forall|e: int, m: int, n: int|
                0 <= e < o.states@.len() && 0 <= m < rows && 0 <= n < cols && !(e == ei && m == mi
                    && n == ni) implies weighted_states.states@[e].at(m, n) == pre.states@[e].at(
                m,
                n,
            ) by {}
            assert(weighted_states.states@[ei].at(mi, ni) == newcell);
            assert forall|e: int, m: int, n: int|
                0 <= e < o.states@.len() && 0 <= m < rows && 0 <= n < cols
                    implies #[trigger] weighted_states.states@[e].at(m, n) == one_traj_cell(
                    o.states@[e],
                    tj1,
                    delta as int,
                    m,
                    n,
                ) by {
                let oe = o.states@[e];
                assert(pre.states@[e].at(m, n) == one_traj_cell(oe, tj, delta as int, m, n));
                lemma_touch_count_bounds(tj, oe, m, n);
                if e == ei {
                    assert(oe.matches_state(*s)) by {
                        assert forall|m2: int, n2: int| oe.in_bounds(m2, n2)
                            implies #[trigger] oe.board_at(m2, n2) == s.at(m2, n2) by {
                            assert(pre.states@[e].board_at(m2, n2) == oe.board_at(m2, n2));
                            assert(pre.states@[e].board_at(m2, n2) == s.at(m2, n2));
                        }
                    }
                    if m == mi && n == ni {
                        assert(touch_count(tj1, oe, m, n) == touch_count(tj, oe, m, n) + 1);
                        assert(oe.board_at(mi, ni) is None);
                        let w0 = oe.at(mi, ni)->Weight_0;
                        assert(oe.at(mi, ni) == WeightedCell::Weight(w0));
                        assert(WEIGHT_MIN <= w0 <= WEIGHT_MAX);
                        lemma_bumped_bounds(w0 as int, touch_count(tj, oe, m, n), delta as int);
                        assert(cur == WeightedCell::Weight(
                            bumped(w0 as int, touch_count(tj, oe, m, n), delta as int) as isize,
                        ));
                        lemma_bumped_step(w0 as int, touch_count(tj, oe, m, n), delta as int);
                        lemma_bumped_bounds(
                            w0 as int,
                            touch_count(tj, oe, m, n) + 1,
                            delta as int,
                        );
                    } else {
                        assert(touch_count(tj1, oe, m, n) == touch_count(tj, oe, m, n));
                        assert(weighted_states.states@[e].at(m, n) == pre.states@[e].at(m, n));
                    }
                } else {
                    assert(weighted_states.states@[e].at(m, n) == pre.states@[e].at(m, n));
                    if oe.matches_state(traj@[ji].0) {
                        assert(pre.states@[e].matches_state(*s)) by {
                            assert forall|m2: int, n2: int| pre.states@[e].in_bounds(m2, n2)
                                implies #[trigger] pre.states@[e].board_at(m2, n2) == s.at(
                                m2,
                                n2,
                            ) by {
                                assert(pre.states@[e].board_at(m2, n2) == oe.board_at(m2, n2));
                                assert(oe.board_at(m2, n2) == s.at(m2, n2));
                            }
                        }
                        pre.lemma_unique_match(*s, e, ei);
                        assert(false);
                    }
                    assert(touch_count(tj1, oe, m, n) == touch_count(tj, oe, m, n));
                }
            }
            assert forall|e: int, m: int, n: int|
                0 <= e < o.states@.len() && 0 <= m < rows && 0 <= n < cols
                    implies #[trigger] weighted_states.states@[e].board_at(m, n)
                        == o.states@[e].board_at(m, n) by {
                assert(pre.states@[e].board_at(m, n) == o.states@[e].board_at(m, n));
                if e == ei && m == mi && n == ni {
                    assert(weighted_states.states@[e].at(m, n) == newcell);
                } else {
                    assert(weighted_states.states@[e].at(m, n) == pre.states@[e].at(m, n));
                }
            }
            assert forall|e: int| 0 <= e < o.states@.len()
                implies (#[trigger] weighted_states.states@[e]).wf() by {
                assert(pre.states@[e].wf());
                if e == ei {
                    assert forall|m2: int, n2: int|
                        0 <= m2 < weighted_states.states@[e].rows && 0 <= n2
                            < weighted_states.states@[e].cols implies (match #[trigger] weighted_states.states@[e].state@[m2]@[n2] {
                        WeightedCell::Weight(w2) => WEIGHT_MIN <= w2 <= WEIGHT_MAX,
                        WeightedCell::Cell(_) => true,
                    }) by {
                        if m2 == mi && n2 == ni {
                            assert(weighted_states.states@[e].at(m2, n2) == newcell);
                        } else {
                            assert(weighted_states.states@[e].at(m2, n2) == pre.states@[e].at(
                                m2,
                                n2,
                            ));
                        }
                    }
                }
            }
            lemma_wf_same_boards(pre, *weighted_states);
        }
        j += 1;
    }
    proof {
        assert(traj@.take(len as int) =~= traj@);
    }
}

/// Applies the post-episode credit-assignment rule to the table, in place:
/// with a winner, every pair of the Crosses trajectory and then every pair
/// of the Noughts trajectory adjusts its move's weight by one clamped
/// additive step (up for the winner's moves, down for the loser's); a draw
/// performs no update at all. Every position a trajectory references must
/// already be present — credit assignment never creates entries.
pub fn apply_credit_assignment(weighted_states: &mut WeightedStates, game: &FinishedGame)
    requires
        old(weighted_states).wf(),
        trajectory_ok(game.players.seq_of(Player::Crosses), *old(weighted_states)),
        trajectory_ok(game.players.seq_of(Player::Noughts), *old(weighted_states)),
    ensures
        final(weighted_states).wf(),
        final(weighted_states).rows == old(weighted_states).rows,
        final(weighted_states).cols == old(weighted_states).cols,
        final(weighted_states).states@.len() == old(weighted_states).states@.len(),
        game.winner is None ==> *final(weighted_states) == *old(weighted_states),
        game.winner is Some ==> forall|e: int, m: int, n: int|
            0 <= e < old(weighted_states).states@.len() && 0 <= m < old(weighted_states).rows
                && 0 <= n < old(weighted_states).cols
                ==> #[trigger] final(weighted_states).states@[e].at(m, n) == credited_cell(
                    old(weighted_states).states@[e],
                    game.players.seq_of(Player::Crosses),
                    game.players.seq_of(Player::Noughts),
                    reward(game.winner, Player::Crosses),
                    reward(game.winner, Player::Noughts),
                    m,
                    n,
                ),
{
    let winner = match game.winner {
        Some(p) => p,
        None => {
            return ;
        },
    };
    let dc: isize = if winner == Player::Crosses {
        1
    } else {
        -1
    };
    let dn: isize = if winner == Player::Noughts {
        1
    } else {
        -1
    };
    let ghost o = *weighted_states;
    let ghost tc = game.players.seq_of(Player::Crosses);
    let ghost tn = game.players.seq_of(Player::Noughts);
    apply_trajectory(weighted_states, &game.players.crosses.sequence, dc);
    let ghost mid = *weighted_states;
    proof {
        lemma_boards_after_traj(o, mid, tc, dc as int);
        lemma_trajectory_ok_same_boards(tn, o, mid);
    }
    apply_trajectory(weighted_states, &game.players.noughts.sequence, dn);
    proof {
        assert forall|e: int, m: int, n: int|
            0 <= e < o.states@.len() && 0 <= m < o.rows && 0 <= n < o.cols
                implies #[trigger] weighted_states.states@[e].at(m, n) == credited_cell(
                o.states@[e],
                tc,
                tn,
                reward(game.winner, Player::Crosses),
                reward(game.winner, Player::Noughts),
                m,
                n,
            ) by {
            let oe = o.states@[e];
            let me_ = mid.states@[e];
            assert(me_.at(m, n) == one_traj_cell(oe, tc, dc as int, m, n));
            assert(weighted_states.states@[e].at(m, n) == one_traj_cell(me_, tn, dn as int, m, n));
            lemma_touch_count_same_board(tn, me_, oe, m, n);
            assert(reward(game.winner, Player::Crosses) == dc as int);
            assert(reward(game.winner, Player::Noughts) == dn as int);
            match oe.at(m, n) {
                WeightedCell::Cell(_) => {},
                WeightedCell::Weight(w0) => {
                    assert(oe.wf() && oe.in_bounds(m, n) ==> WEIGHT_MIN <= w0 <= WEIGHT_MAX);
                    assert(WEIGHT_MIN <= w0 <= WEIGHT_MAX);
                    lemma_touch_count_bounds(tc, oe, m, n);
                    lemma_touch_count_bounds(tn, oe, m, n);
                    lemma_bumped_bounds(w0 as int, touch_count(tc, oe, m, n), dc as int);
                    lemma_bumped_bounds(
                        bumped(w0 as int, touch_count(tc, oe, m, n), dc as int),
                        touch_count(tn, oe, m, n),
                        dn as int,
                    );
                },
            }
        }
    }
}

} // verus!

