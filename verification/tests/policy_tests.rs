use kinarow::players::Player;
use kinarow::state::{Cell, State};
use kinarow::weighted_state::{WeightedCell, WeightedState, WeightedStates};

#[test]
fn table_starts_with_the_empty_board() {
    let ws = WeightedStates::new(3, 3);
    assert_eq!(ws.len(), 1);
    assert_eq!(ws.find_mut(&State::empty(3, 3)), Some(0));
    let entry = ws.entry(0);
    for row in &entry.state {
        for cell in row {
            assert_eq!(*cell, WeightedCell::Weight(1));
        }
    }
}

#[test]
fn ensure_entry_adds_unseen_and_keeps_seen() {
    let c = Cell::Player(Player::Crosses);
    let mut ws = WeightedStates::new(3, 3);
    let s = State::new(vec![
        vec![Some(c), None, None],
        vec![None, None, None],
        vec![None, None, None],
    ]);
    assert!(ws.find_mut(&s).is_none());
    assert!(ws.ensure_entry(&s));
    assert_eq!(ws.len(), 2);
    let first = ws.find_mut(&s);
    assert_eq!(first, Some(1));
    assert!(!ws.ensure_entry(&s));
    assert_eq!(ws.len(), 2);
    assert_eq!(ws.find_mut(&s), first);
}

#[test]
fn fresh_entry_takes_occupancy_and_uniform_weights() {
    let c = Cell::Player(Player::Crosses);
    let s = State::new(vec![vec![Some(c), None], vec![None, None]]);
    let e = WeightedState::fresh(&s);
    assert_eq!(e.state[0][0], WeightedCell::Cell(c));
    assert_eq!(e.state[0][1], WeightedCell::Weight(1));
    assert_eq!(e.state[1][0], WeightedCell::Weight(1));
    assert_eq!(e.state[1][1], WeightedCell::Weight(1));
}

#[test]
fn clear_weights_resets_only_weights() {
    let c = Cell::Player(Player::Crosses);
    let mut e = WeightedState {
        rows: 2,
        cols: 2,
        state: vec![
            vec![WeightedCell::Cell(c), WeightedCell::Weight(17)],
            vec![WeightedCell::Weight(930), WeightedCell::Weight(2)],
        ],
    };
    e.clear_weights();
    assert_eq!(e.state[0][0], WeightedCell::Cell(c));
    assert_eq!(e.state[0][1], WeightedCell::Weight(1));
    assert_eq!(e.state[1][0], WeightedCell::Weight(1));
    assert_eq!(e.state[1][1], WeightedCell::Weight(1));
}

#[test]
fn just_state_strips_the_weights() {
    let c = Cell::Player(Player::Crosses);
    let n = Cell::Player(Player::Noughts);
    let e = WeightedState {
        rows: 2,
        cols: 2,
        state: vec![
            vec![WeightedCell::Cell(c), WeightedCell::Weight(4)],
            vec![WeightedCell::Weight(9), WeightedCell::Cell(n)],
        ],
    };
    let s = e.just_state();
    assert_eq!(s.get(0, 0), Some(c));
    assert_eq!(s.get(0, 1), None);
    assert_eq!(s.get(1, 0), None);
    assert_eq!(s.get(1, 1), Some(n));
}

#[test]
fn weighted_cell_default_is_unit_weight() {
    assert_eq!(WeightedCell::default(), WeightedCell::Weight(1));
}

#[test]
fn find_mut_distinguishes_positions() {
    let c = Cell::Player(Player::Crosses);
    let n = Cell::Player(Player::Noughts);
    let mut ws = WeightedStates::new(2, 2);
    let s1 = State::new(vec![vec![Some(c), None], vec![None, None]]);
    let s2 = State::new(vec![vec![Some(n), None], vec![None, None]]);
    ws.ensure_entry(&s1);
    ws.ensure_entry(&s2);
    assert_eq!(ws.len(), 3);
    assert_ne!(ws.find_mut(&s1), ws.find_mut(&s2));
    assert!(ws.find_mut(&s1).is_some());
    assert!(ws.find_mut(&s2).is_some());
}
