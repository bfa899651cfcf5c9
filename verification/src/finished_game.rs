//! The outcome of one finished episode: the winning player, if any, and
//! every player's recorded trajectory.

use vstd::prelude::*;

use crate::players::{Player, Players};

verus! {

/// One episode's terminal outcome. `winner` is `None` for a draw; the
/// trajectories inside `players` are consumed by credit assignment.
pub struct FinishedGame {
    pub winner: Option<Player>,
    pub players: Players,
}

impl FinishedGame {
    pub fn new(winner: Option<Player>, players: Players) -> (r: FinishedGame)
        ensures
            r.winner == winner,
            r.players == players,
    {
        FinishedGame { winner, players }
    }
}

} // verus!
