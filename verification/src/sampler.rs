//! The move sampler: turns a weighted position into a cumulative weight
//! sequence and draws a legal (empty) cell from it.
//!
//! The weight vector is laid out row-major: flat index `i` stands for row
//! `i / cols`, column `i % cols`. The running totals are kept unnormalized
//! (each conceptually divided by the strictly positive total); `sample`
//! folds the division into its comparison by drawing the random value from
//! `[0, total)` directly.

use vstd::arithmetic::div_mod::lemma_fundamental_div_mod;
use vstd::arithmetic::div_mod::lemma_fundamental_div_mod_converse;
use vstd::arithmetic::div_mod::lemma_mod_division_less_than_divisor;
use vstd::arithmetic::div_mod::lemma_multiply_divide_lt;
use vstd::arithmetic::mul::lemma_mul_inequality;
use vstd::prelude::*;

use rand::Rng;

use crate::state::State;
use crate::weighted_state::{WeightedCell, WeightedState, WEIGHT_MAX};

verus! {

/// The one failure the sampler can surface: the weights of a position do
/// not sum to a strictly positive value, so no distribution exists.
#[derive(Clone, Copy, PartialEq, Eq, Structural, Debug)]
pub enum SamplerError {
    ZeroWeightSum,
}

/// The sampling weight of flat index `i` of `ws` (row-major layout).
pub open spec fn flat_weight(ws: WeightedState, i: int) -> int {
    ws.at(i / (ws.cols as int), i % (ws.cols as int)).weight_of()
}

/// The sum of the sampling weights of the first `i` flat indexes.
pub open spec fn cum_weight(ws: WeightedState, i: int) -> int
    decreases i,
{
    if i <= 0 {
        0
    } else {
        cum_weight(ws, i - 1) + flat_weight(ws, i - 1)
    }
}

/// The sum of all sampling weights of `ws`.
pub open spec fn total_weight(ws: WeightedState) -> int {
    cum_weight(ws, (ws.rows as int) * (ws.cols as int))
}

/// Every partial sum of a well-formed position lies between 0 and
/// `i * WEIGHT_MAX`.
pub proof fn lemma_cum_weight_bounds(ws: WeightedState, i: int)
    requires
        ws.wf(),
        0 <= i <= (ws.rows as int) * (ws.cols as int),
    ensures
        0 <= cum_weight(ws, i) <= i * (WEIGHT_MAX as int),
    decreases i,
{
    if i > 0 {
        lemma_cum_weight_bounds(ws, i - 1);
        let c = ws.cols as int;
        assert(c > 0) by (nonlinear_arith)
            requires
                (ws.rows as int) * c >= i,
                i > 0,
                c >= 0,
        ;
        lemma_fundamental_div_mod((i - 1) as int, c);
        lemma_mod_division_less_than_divisor(i - 1, c);
        assert((i - 1) / c >= 0) by (nonlinear_arith)
            requires
                c > 0,
                i - 1 >= 0,
                i - 1 == ((i - 1) / c) * c + ((i - 1) % c),
                0 <= (i - 1) % c < c,
        ;
        assert(c * (ws.rows as int) == (ws.rows as int) * c) by (nonlinear_arith);
        lemma_multiply_divide_lt(i - 1, c, ws.rows as int);
        assert(0 <= flat_weight(ws, i - 1) <= WEIGHT_MAX as int);
        assert((i - 1) * (WEIGHT_MAX as int) + (WEIGHT_MAX as int) == i * (WEIGHT_MAX as int))
            by (nonlinear_arith);
    }
}

/// Law: the cumulative weight sequence of a well-formed position is
/// non-decreasing, and its final entry equals the total weight — the value
/// that normalization divides by, so the normalized final entry is exactly
/// 1 whenever the total is strictly positive.
pub proof fn lemma_cumulative_non_decreasing(ws: WeightedState, i: int, j: int)
    requires
        ws.wf(),
        0 <= i <= j <= (ws.rows as int) * (ws.cols as int),
    ensures
        cum_weight(ws, i) <= cum_weight(ws, j),
        cum_weight(ws, (ws.rows as int) * (ws.cols as int)) == total_weight(ws),
    decreases j - i,
{
    if i < j {
        lemma_cumulative_non_decreasing(ws, i, j - 1);
        lemma_cum_weight_bounds(ws, j);
        let c = ws.cols as int;
        assert(c > 0) by (nonlinear_arith)
            requires
                (ws.rows as int) * c >= j,
                j > 0,
                c >= 0,
        ;
        lemma_fundamental_div_mod((j - 1) as int, c);
        lemma_mod_division_less_than_divisor(j - 1, c);
        assert((j - 1) / c >= 0) by (nonlinear_arith)
            requires
                c > 0,
                j - 1 >= 0,
                j - 1 == ((j - 1) / c) * c + ((j - 1) % c),
                0 <= (j - 1) % c < c,
        ;
        assert(c * (ws.rows as int) == (ws.rows as int) * c) by (nonlinear_arith);
        lemma_multiply_divide_lt(j - 1, c, ws.rows as int);
        assert(flat_weight(ws, j - 1) >= 0);
    }
}

/// If `ws` records the position `board` and `board` still has an empty
/// cell, the total weight is strictly positive: the sampler cannot fail on
/// a playable position.
pub proof fn lemma_playable_total_positive(ws: WeightedState, board: State, m: int, n: int)
    requires
        ws.wf(),
        ws.matches_state(board),
        board.in_bounds(m, n),
        board.at(m, n) is None,
    ensures
        total_weight(ws) > 0,
{
    let c = ws.cols as int;
    let f = m * c + n;
    assert(c > 0);
    assert(0 <= f && f + 1 <= (ws.rows as int) * c) by (nonlinear_arith)
        requires
            0 <= m < ws.rows as int,
            0 <= n < c,
            f == m * c + n,
    ;
    lemma_fundamental_div_mod_converse(f, c, m, n);
    assert(ws.board_at(m, n) == board.at(m, n));
    assert(flat_weight(ws, f) >= 1);
    assert(cum_weight(ws, f + 1) == cum_weight(ws, f) + flat_weight(ws, f));
    lemma_cum_weight_bounds(ws, f);
    lemma_cumulative_non_decreasing(ws, f + 1, (ws.rows as int) * (ws.cols as int));
}

/// Computes the running weight totals of `ws`, one per cell in row-major
/// order; fails with `ZeroWeightSum` exactly when the weights do not sum
/// to a strictly positive value.
pub fn cumulative(ws: &WeightedState) -> (r: Result<Vec<usize>, SamplerError>)
    requires
        ws.wf(),
    ensures
        match r {
            Ok(c) => {
                &&& c@.len() == (ws.rows as int) * (ws.cols as int)
                &&& forall|i: int| 0 <= i < c@.len() ==> #[trigger] c@[i] == cum_weight(*ws, i + 1)
                &&& total_weight(*ws) > 0
            },
            Err(e) => e == SamplerError::ZeroWeightSum && total_weight(*ws) <= 0,
        },
{
    proof {
        assert((ws.rows as int) * (ws.cols as int) >= 0) by (nonlinear_arith);
        assert((ws.rows as int) * (ws.cols as int) <= usize::MAX as int) by (nonlinear_arith)
            requires
                (ws.rows as int) * (ws.cols as int) * (WEIGHT_MAX as int) <= usize::MAX as int,
                (ws.rows as int) * (ws.cols as int) >= 0,
                WEIGHT_MAX >= 1,
        ;
    }
    let mut totals: Vec<usize> = Vec::new();
    let mut sum: usize = 0;
    let mut idx: usize = 0;
    let mut m: usize = 0;
    while m < ws.rows
        invariant
            ws.wf(),
            m <= ws.rows,
            idx == m * (ws.cols as int),
            idx <= (ws.rows as int) * (ws.cols as int),
            totals@.len() == idx,
            forall|i: int| 0 <= i < idx ==> #[trigger] totals@[i] == cum_weight(*ws, i + 1),
            sum == cum_weight(*ws, idx as int),
            (ws.rows as int) * (ws.cols as int) * (WEIGHT_MAX as int) <= usize::MAX as int,
        decreases ws.rows - m,
    {
        let mut n: usize = 0;
        proof {
            assert((m + 1) * (ws.cols as int) <= (ws.rows as int) * (ws.cols as int))
                by (nonlinear_arith)
                requires
                    m < ws.rows,
                    ws.cols >= 0,
            ;
            assert(m * (ws.cols as int) + (ws.cols as int) == (m + 1) * (ws.cols as int))
                by (nonlinear_arith);
        }
        while n < ws.cols
            invariant
                ws.wf(),
                m < ws.rows,
                n <= ws.cols,
                idx == m * (ws.cols as int) + n,
                idx + (ws.cols as int) - n <= (ws.rows as int) * (ws.cols as int),
                totals@.len() == idx,
                forall|i: int| 0 <= i < idx ==> #[trigger] totals@[i] == cum_weight(*ws, i + 1),
                sum == cum_weight(*ws, idx as int),
                (ws.rows as int) * (ws.cols as int) * (WEIGHT_MAX as int) <= usize::MAX as int,
            decreases ws.cols - n,
        {
            let w: isize = match ws.state[m][n] {
                WeightedCell::Weight(weight) => weight,
                WeightedCell::Cell(_) => 0,
            };
            proof {
                lemma_fundamental_div_mod_converse(idx as int, ws.cols as int, m as int, n as int);
                assert(flat_weight(*ws, idx as int) == ws.at(m as int, n as int).weight_of());
                assert(0 <= w <= WEIGHT_MAX);
                lemma_cum_weight_bounds(*ws, idx as int);
                assert(idx * (WEIGHT_MAX as int) + (WEIGHT_MAX as int)
                    == (idx + 1) * (WEIGHT_MAX as int)) by (nonlinear_arith);
                lemma_mul_inequality(idx + 1, (ws.rows as int) * (ws.cols as int), WEIGHT_MAX as int);
            }
            sum = sum + (w as usize);
            totals.push(sum);
            idx = idx + 1;
            n += 1;
        }
        m += 1;
    }
    if sum == 0 {
        Err(SamplerError::ZeroWeightSum)
    } else {
        Ok(totals)
    }
}

/// Relies on `rand::thread_rng` and `rand::Rng::gen_range`: a uniformly
/// distributed draw from the half-open range `[0, bound)`. `gen_range`
/// panics only on an empty range, which the precondition rules out.
#[verifier::external_body]
fn random_below(bound: usize) -> (r: usize)
    requires
        bound >= 1,
    ensures
        r < bound,
{
    rand::thread_rng().gen_range(0..bound)
}

/// Draws a cell by inverse-CDF selection over the running totals: a random
/// value `r` in `[0, total)` selects the first index whose running total
/// exceeds `r`. A cell already occupied on `board` would be redrawn; since
/// occupied cells contribute no weight, the selected cell is always empty.
#[verifier::rlimit(60)]
pub fn sample(cumulative: &Vec<usize>, board: &State) -> (r: (usize, usize))
    requires
        board.wf(),
        cumulative@.len() == (board.rows as int) * (board.cols as int),
        cumulative@.len() >= 1,
        forall|i: int| 0 < i < cumulative@.len() ==> #[trigger] cumulative@[i] >= cumulative@[i - 1],
        forall|i: int|
            0 <= i < cumulative@.len()
                && board.at(i / (board.cols as int), i % (board.cols as int)) is Some
                ==> #[trigger] cumulative@[i] == (if i == 0 {
                    0int
                } else {
                    cumulative@[i - 1] as int
                }),
        cumulative@.last() >= 1,
    ensures
        board.in_bounds(r.0 as int, r.1 as int),
        board.at(r.0 as int, r.1 as int) is None,
{
    proof {
        assert(board.cols as int > 0) by (nonlinear_arith)
            requires
                (board.rows as int) * (board.cols as int) >= 1,
                board.cols as int >= 0,
        ;
    }
    let total = cumulative[cumulative.len() - 1];
    loop
        invariant
            board.wf(),
            cumulative@.len() == (board.rows as int) * (board.cols as int),
            cumulative@.len() >= 1,
            board.cols as int > 0,
            forall|i: int| 0 < i < cumulative@.len() ==> #[trigger] cumulative@[i] >= cumulative@[i - 1],
            forall|i: int|
                0 <= i < cumulative@.len()
                    && board.at(i / (board.cols as int), i % (board.cols as int)) is Some
                    ==> #[trigger] cumulative@[i] == (if i == 0 {
                        0int
                    } else {
                        cumulative@[i - 1] as int
                    }),
            total == cumulative@.last(),
            total >= 1,
        decreases 0int,
    {
        let draw = random_below(total);
        let len = cumulative.len();
        let mut idx: usize = 0;
        while cumulative[idx] <= draw
            invariant
                cumulative@.len() >= 1,
                len == cumulative@.len(),
                idx < len,
                idx < cumulative@.len(),
                total == cumulative@.last(),
                draw < total,
                forall|i: int|
                    0 < i < cumulative@.len() ==> #[trigger] cumulative@[i] >= cumulative@[i - 1],
                idx > 0 ==> cumulative@[idx - 1] <= draw,
            decreases cumulative@.len() - idx,
        {
            proof {
                if idx + 1 == cumulative@.len() {
                    assert(cumulative@[idx as int] == total);
                }
            }
            idx += 1;
        }
        let mi = idx / board.cols;
        let ni = idx % board.cols;
        proof {
            assert((board.cols as int) * (board.rows as int) == (board.rows as int) * (board.cols as int))
                by (nonlinear_arith);
            lemma_multiply_divide_lt(idx as int, board.cols as int, board.rows as int);
            lemma_mod_division_less_than_divisor(idx as int, board.cols as int);
            lemma_fundamental_div_mod(idx as int, board.cols as int);
            assert(mi as int == idx as int / (board.cols as int));
            assert(board.in_bounds(mi as int, ni as int));
        }
        match board.state[mi][ni] {
            None => {
                return (mi, ni);
            },
            Some(_) => {
                proof {
                    if idx == 0 {
                        assert(cumulative@[0] == 0int);
                    } else {
                        assert(cumulative@[idx as int] == cumulative@[idx - 1] as int);
                    }
                    assert(false);
                }
            },
        }
    }
}

} // verus!
