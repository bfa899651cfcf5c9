use kinarow::players::Player;
use kinarow::state::{Cell, State};

const WIN_CONDITION: usize = 3;

fn winning_states() -> Vec<State> {
    let c = Cell::Player(Player::Crosses);
    let n = Cell::Player(Player::Noughts);
    vec![
        State::new(vec![
            vec![Some(c), None, None],
            vec![Some(n), Some(c), None],
            vec![None, Some(n), Some(c)],
        ]),
        State::new(vec![
            vec![Some(c), Some(n), None],
            vec![Some(c), None, Some(n)],
            vec![Some(c), None, None],
        ]),
        State::new(vec![
            vec![Some(c), None, Some(c)],
            vec![Some(c), None, None],
            vec![Some(n), Some(n), Some(n)],
        ]),
    ]
}

fn playable_states() -> Vec<State> {
    let c = Cell::Player(Player::Crosses);
    let n = Cell::Player(Player::Noughts);
    vec![
        State::new(vec![
            vec![Some(c), None, None],
            vec![Some(n), None, None],
            vec![None, Some(n), Some(c)],
        ]),
        State::new(vec![
            vec![Some(c), Some(n), None],
            vec![None, None, Some(n)],
            vec![Some(c), None, None],
        ]),
        State::new(vec![
            vec![Some(c), None, Some(c)],
            vec![Some(c), None, None],
            vec![Some(n), None, Some(n)],
        ]),
        State::new(vec![
            vec![Some(n), None, None],
            vec![Some(n), Some(c), None],
            vec![Some(c), Some(n), None],
        ]),
    ]
}

fn unplayable_states() -> Vec<State> {
    let c = Cell::Player(Player::Crosses);
    let n = Cell::Player(Player::Noughts);
    vec![
        State::new(vec![vec![Some(c); 3]; 3]),
        State::new(vec![vec![Some(n); 3]; 3]),
    ]
}

#[test]
fn winner_test() {
    assert!(winning_states().iter().all(|s| s.winner(WIN_CONDITION).is_some()));
    assert!(playable_states().iter().all(|s| s.winner(WIN_CONDITION).is_none()));
}

#[test]
fn playable_test() {
    assert!(playable_states().iter().all(|s| s.playable()));
    assert!(unplayable_states().iter().all(|s| !s.playable()));
}

#[test]
fn winner_top_row() {
    let c = Cell::Player(Player::Crosses);
    let s = State::new(vec![
        vec![Some(c), Some(c), Some(c)],
        vec![None, None, None],
        vec![None, None, None],
    ]);
    assert_eq!(s.winner(3), Some(Player::Crosses));
}

#[test]
fn winner_anti_diagonal() {
    let n = Cell::Player(Player::Noughts);
    let s = State::new(vec![
        vec![None, None, Some(n)],
        vec![None, Some(n), None],
        vec![Some(n), None, None],
    ]);
    assert_eq!(s.winner(3), Some(Player::Noughts));
}

#[test]
fn winner_column() {
    let n = Cell::Player(Player::Noughts);
    let s = State::new(vec![
        vec![Some(n), None, None],
        vec![Some(n), None, None],
        vec![Some(n), None, None],
    ]);
    assert_eq!(s.winner(3), Some(Player::Noughts));
}

#[test]
fn winner_needs_contiguous_run() {
    let c = Cell::Player(Player::Crosses);
    let s = State::new(vec![
        vec![Some(c), Some(c), None, Some(c)],
        vec![None, None, None, None],
    ]);
    assert_eq!(s.winner(3), None);
    assert_eq!(s.winner(2), Some(Player::Crosses));
}

#[test]
fn winner_longer_run_counts() {
    let c = Cell::Player(Player::Crosses);
    let s = State::new(vec![vec![Some(c), Some(c), Some(c), Some(c)]]);
    assert_eq!(s.winner(3), Some(Player::Crosses));
}

#[test]
fn full_board_is_not_playable() {
    let c = Cell::Player(Player::Crosses);
    let n = Cell::Player(Player::Noughts);
    let s = State::new(vec![
        vec![Some(c), Some(n), Some(c)],
        vec![Some(n), Some(c), Some(n)],
        vec![Some(n), Some(c), Some(n)],
    ]);
    assert!(!s.playable());
}

#[test]
fn empty_board_is_playable() {
    let s = State::empty(3, 3);
    assert!(s.playable());
    assert_eq!(s.winner(3), None);
}

#[test]
fn get_is_bounds_safe() {
    let c = Cell::Player(Player::Crosses);
    let s = State::new(vec![vec![Some(c), None], vec![None, None]]);
    assert_eq!(s.get(0, 0), Some(c));
    assert_eq!(s.get(0, 1), None);
    assert_eq!(s.get(5, 0), None);
    assert_eq!(s.get(0, 5), None);
}

#[test]
fn cell_unwrap_returns_player() {
    assert_eq!(Cell::Player(Player::Noughts).unwrap(), Player::Noughts);
}
