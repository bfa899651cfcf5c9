use kinarow::credit::apply_credit_assignment;
use kinarow::finished_game::FinishedGame;
use kinarow::game::Game;
use kinarow::games_stats::GamesStats;
use kinarow::players::{Player, Players, Sequence};
use kinarow::state::{Cell, State};
use kinarow::weighted_state::{WeightedCell, WeightedStates};

#[test]
fn turn_cycle_repeats() {
    let mut players = Players::default();
    assert_eq!(players.next(), Player::Crosses);
    assert_eq!(players.next(), Player::Noughts);
    assert_eq!(players.next(), Player::Crosses);
    assert_eq!(players.next(), Player::Noughts);
}

#[test]
fn new_game_starts_with_crosses_on_an_empty_board() {
    let g = Game::new(3, 3);
    assert_eq!(g.current_player, Player::Crosses);
    assert!(g.current_state.playable());
    for m in 0..3 {
        for n in 0..3 {
            assert_eq!(g.current_state.get(m, n), None);
        }
    }
}

#[test]
fn play_move_marks_the_cell_and_returns_what_was_there() {
    let mut g = Game::new(3, 3);
    let was = g.play_move(1, 2);
    assert_eq!(was, None);
    assert_eq!(g.current_state.get(1, 2), Some(Cell::Player(Player::Crosses)));
    let was_again = g.play_move(1, 2);
    assert_eq!(was_again, Some(Cell::Player(Player::Crosses)));
}

#[test]
fn one_episode_grows_the_table_by_one_entry_per_visited_position() {
    let mut ws = WeightedStates::new(3, 3);
    let mut g = Game::new(3, 3);
    let finished = g.play_until_finish(3, &mut ws);
    let total_moves =
        finished.players.crosses.sequence.len() + finished.players.noughts.sequence.len();
    assert!(total_moves >= 5);
    assert_eq!(ws.len(), 1 + total_moves);
    for (state, (m, n)) in finished
        .players
        .crosses
        .sequence
        .iter()
        .chain(finished.players.noughts.sequence.iter())
    {
        assert!(ws.find_mut(state).is_some());
        assert_eq!(state.get(*m, *n), None);
    }
    let before = ws.len();
    apply_credit_assignment(&mut ws, &finished);
    assert_eq!(ws.len(), before);
    assert_eq!(ws.find_mut(&State::empty(3, 3)), Some(0));
}

#[test]
fn episode_ends_in_a_win_or_a_full_board() {
    for _ in 0..10 {
        let mut ws = WeightedStates::new(3, 3);
        let mut g = Game::new(3, 3);
        let finished = g.play_until_finish(3, &mut ws);
        match finished.winner {
            Some(p) => assert_eq!(g.current_state.winner(3), Some(p)),
            None => assert!(!g.current_state.playable()),
        }
    }
}

fn one_pair_outcome(winner: Option<Player>) -> FinishedGame {
    let players = Players {
        crosses: Sequence { sequence: vec![(State::empty(3, 3), (0, 0))] },
        noughts: Sequence { sequence: vec![] },
        upcoming: Player::Crosses,
    };
    FinishedGame::new(winner, players)
}

#[test]
fn winning_move_gains_weight_and_losing_move_loses_it() {
    let mut ws = WeightedStates::new(3, 3);
    apply_credit_assignment(&mut ws, &one_pair_outcome(Some(Player::Crosses)));
    assert_eq!(ws.entry(0).state[0][0], WeightedCell::Weight(2));
    assert_eq!(ws.entry(0).state[0][1], WeightedCell::Weight(1));
    apply_credit_assignment(&mut ws, &one_pair_outcome(Some(Player::Noughts)));
    assert_eq!(ws.entry(0).state[0][0], WeightedCell::Weight(1));
}

#[test]
fn losing_weight_is_clamped_at_the_lower_bound() {
    let mut ws = WeightedStates::new(3, 3);
    apply_credit_assignment(&mut ws, &one_pair_outcome(Some(Player::Noughts)));
    assert_eq!(ws.entry(0).state[0][0], WeightedCell::Weight(1));
}

#[test]
fn draw_leaves_the_table_unchanged() {
    let mut ws = WeightedStates::new(3, 3);
    apply_credit_assignment(&mut ws, &one_pair_outcome(None));
    assert_eq!(ws.entry(0).state[0][0], WeightedCell::Weight(1));
    assert_eq!(ws.len(), 1);
}

#[test]
fn stats_count_wins_draws_and_rounds() {
    let mut stats = GamesStats::new();
    assert_eq!(stats.rounds, 1);
    stats.update(&one_pair_outcome(Some(Player::Crosses)));
    stats.update(&one_pair_outcome(Some(Player::Crosses)));
    stats.update(&one_pair_outcome(Some(Player::Noughts)));
    stats.update(&one_pair_outcome(None));
    assert_eq!(stats.wins(Player::Crosses), 2);
    assert_eq!(stats.wins(Player::Noughts), 1);
    assert_eq!(stats.draws, 1);
    assert_eq!(stats.rounds, 5);
}
