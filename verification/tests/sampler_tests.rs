use kinarow::game::Game;
use kinarow::players::Player;
use kinarow::sampler::{cumulative, SamplerError};
use kinarow::state::Cell;
use kinarow::weighted_state::{WeightedCell, WeightedState};

#[test]
fn cumulative_of_one_two_three_four() {
    let w = WeightedState {
        rows: 2,
        cols: 2,
        state: vec![
            vec![WeightedCell::Weight(1), WeightedCell::Weight(2)],
            vec![WeightedCell::Weight(3), WeightedCell::Weight(4)],
        ],
    };
    let totals = cumulative(&w).unwrap();
    assert_eq!(totals, vec![1, 3, 6, 10]);
    let total = *totals.last().unwrap() as f64;
    let normalized: Vec<f64> = totals.iter().map(|t| *t as f64 / total).collect();
    let expected = [0.1, 0.3, 0.6, 1.0];
    for (got, want) in normalized.iter().zip(expected.iter()) {
        assert!((got - want).abs() < 1e-9);
    }
}

#[test]
fn cumulative_skips_occupied_cells() {
    let c = Cell::Player(Player::Crosses);
    let w = WeightedState {
        rows: 1,
        cols: 3,
        state: vec![vec![
            WeightedCell::Weight(5),
            WeightedCell::Cell(c),
            WeightedCell::Weight(2),
        ]],
    };
    assert_eq!(cumulative(&w).unwrap(), vec![5, 5, 7]);
}

#[test]
fn cumulative_fails_on_full_board() {
    let c = Cell::Player(Player::Crosses);
    let w = WeightedState {
        rows: 2,
        cols: 1,
        state: vec![vec![WeightedCell::Cell(c)], vec![WeightedCell::Cell(c)]],
    };
    assert_eq!(cumulative(&w), Err(SamplerError::ZeroWeightSum));
}

#[test]
fn determine_move_returns_the_only_empty_cell() {
    let c = Cell::Player(Player::Crosses);
    let n = Cell::Player(Player::Noughts);
    let w = WeightedState {
        rows: 2,
        cols: 2,
        state: vec![
            vec![WeightedCell::Cell(c), WeightedCell::Cell(n)],
            vec![WeightedCell::Cell(n), WeightedCell::Weight(7)],
        ],
    };
    for _ in 0..20 {
        assert_eq!(Game::determine_move(&w), Ok((1, 1)));
    }
}

#[test]
fn determine_move_never_picks_an_occupied_cell() {
    let c = Cell::Player(Player::Crosses);
    let w = WeightedState {
        rows: 3,
        cols: 3,
        state: vec![
            vec![WeightedCell::Weight(1), WeightedCell::Cell(c), WeightedCell::Weight(3)],
            vec![WeightedCell::Cell(c), WeightedCell::Weight(2), WeightedCell::Cell(c)],
            vec![WeightedCell::Weight(9), WeightedCell::Cell(c), WeightedCell::Weight(1)],
        ],
    };
    for _ in 0..50 {
        let (m, n) = Game::determine_move(&w).unwrap();
        assert!(matches!(w.state[m][n], WeightedCell::Weight(_)));
    }
}

#[test]
fn determine_move_fails_without_weight() {
    let c = Cell::Player(Player::Crosses);
    let w = WeightedState {
        rows: 1,
        cols: 1,
        state: vec![vec![WeightedCell::Cell(c)]],
    };
    assert_eq!(Game::determine_move(&w), Err(SamplerError::ZeroWeightSum));
}
