//! Running tallies over finished episodes: wins per player, draws, and
//! the round number.

use vstd::prelude::*;

use crate::finished_game::FinishedGame;
use crate::players::Player;

verus! {

/// Win, draw and round counters across episodes. The round counter starts
/// at 1: it names the round about to be played.
pub struct GamesStats {
    pub wins_crosses: u64,
    pub wins_noughts: u64,
    pub draws: u64,
    pub rounds: u64,
}

impl GamesStats {
    /// The win tally of the given player.
    pub open spec fn spec_wins(self, p: Player) -> u64 {
        match p {
            Player::Crosses => self.wins_crosses,
            Player::Noughts => self.wins_noughts,
        }
    }

    pub fn new() -> (r: GamesStats)
        ensures
            r.wins_crosses == 0,
            r.wins_noughts == 0,
            r.draws == 0,
            r.rounds == 1,
    {
        GamesStats { wins_crosses: 0, wins_noughts: 0, draws: 0, rounds: 1 }
    }

    /// The win tally of the given player.
    pub fn wins(&self, p: Player) -> (r: u64)
        ensures
            r == self.spec_wins(p),
    {
        match p {
            Player::Crosses => self.wins_crosses,
            Player::Noughts => self.wins_noughts,
        }
    }

    /// Counts one finished episode: its winner's tally (or the draw tally)
    /// and the round number each advance by one.
    pub fn update(&mut self, game: &FinishedGame)
        requires
            old(self).rounds < u64::MAX,
            match game.winner {
                Some(Player::Crosses) => old(self).wins_crosses < u64::MAX,
                Some(Player::Noughts) => old(self).wins_noughts < u64::MAX,
                None => old(self).draws < u64::MAX,
            },
        ensures
            final(self).rounds == old(self).rounds + 1,
            final(self).wins_crosses == old(self).wins_crosses + (if game.winner == Some(
                Player::Crosses,
            ) {
                1int
            } else {
                0int
            }),
            final(self).wins_noughts == old(self).wins_noughts + (if game.winner == Some(
                Player::Noughts,
            ) {
                1int
            } else {
                0int
            }),
            final(self).draws == old(self).draws + (if game.winner is None {
                1int
            } else {
                0int
            }),
    {
        match game.winner {
            Some(Player::Crosses) => {
                self.wins_crosses = self.wins_crosses + 1;
            },
            Some(Player::Noughts) => {
                self.wins_noughts = self.wins_noughts + 1;
            },
            None => {
                self.draws = self.draws + 1;
            },
        }
        self.rounds = self.rounds + 1;
    }
}

} // verus!
