//! The fixed set of player identities and the cyclic turn order.

use vstd::prelude::*;

use crate::state::State;

verus! {

/// One of the two identities that occupy cells, usable as a key and
/// equality-comparable.
#[derive(Clone, Copy, PartialEq, Eq, Structural, Debug, Hash)]
pub enum Player {
    Crosses,
    Noughts,
}

impl Player {
    /// The fixed, repeatable successor in the turn cycle:
    /// Crosses is followed by Noughts, Noughts by Crosses.
    pub open spec fn spec_successor(self) -> Player {
        match self {
            Player::Crosses => Player::Noughts,
            Player::Noughts => Player::Crosses,
        }
    }

    /// Executable counterpart of [`Player::spec_successor`].
    pub fn successor(self) -> (p: Player)
        ensures
            p == self.spec_successor(),
    {
        match self {
            Player::Crosses => Player::Noughts,
            Player::Noughts => Player::Crosses,
        }
    }
}

impl Default for Player {
    /// The first player in the turn cycle.
    fn default() -> (p: Player)
        ensures
            p == Player::Crosses,
    {
        Player::Crosses
    }
}

/// One player's trajectory for one episode: the board seen before each of
/// the player's moves, paired with the coordinates of the move then taken.
pub struct Sequence {
    pub sequence: Vec<(State, (usize, usize))>,
}

impl Default for Sequence {
    /// A trajectory with no recorded moves yet.
    fn default() -> (s: Sequence)
        ensures
            s.sequence@.len() == 0,
    {
        Sequence { sequence: Vec::new() }
    }
}

/// Both players' trajectories for the running episode, together with the
/// position in the turn cycle.
pub struct Players {
    pub crosses: Sequence,
    pub noughts: Sequence,
    /// The player that the next call to [`Players::next`] hands out.
    pub upcoming: Player,
}

impl Players {
    /// The recorded trajectory of the given player.
    pub open spec fn seq_of(self, p: Player) -> Seq<(State, (usize, usize))> {
        match p {
            Player::Crosses => self.crosses.sequence@,
            Player::Noughts => self.noughts.sequence@,
        }
    }

    /// Hands out the player whose turn it is and advances the cycle.
    pub fn next(&mut self) -> (p: Player)
        ensures
            p == old(self).upcoming,
            final(self).upcoming == old(self).upcoming.spec_successor(),
            final(self).crosses.sequence@ == old(self).crosses.sequence@,
            final(self).noughts.sequence@ == old(self).noughts.sequence@,
    {
        let p = self.upcoming;
        self.upcoming = p.successor();
        p
    }

    /// Appends one (board snapshot, move) pair to the given player's
    /// trajectory.
    pub fn record(&mut self, p: Player, snapshot: State, m: usize, n: usize)
        ensures
            final(self).seq_of(p) == old(self).seq_of(p).push((snapshot, (m, n))),
            final(self).seq_of(p.spec_successor()) == old(self).seq_of(p.spec_successor()),
            final(self).upcoming == old(self).upcoming,
    {
        match p {
            Player::Crosses => self.crosses.sequence.push((snapshot, (m, n))),
            Player::Noughts => self.noughts.sequence.push((snapshot, (m, n))),
        }
    }
}

impl Default for Players {
    /// Empty trajectories; the cycle starts at the first player.
    fn default() -> (r: Players)
        ensures
            r.crosses.sequence@.len() == 0,
            r.noughts.sequence@.len() == 0,
            r.upcoming == Player::Crosses,
    {
        Players { crosses: Sequence::default(), noughts: Sequence::default(), upcoming: Player::Crosses }
    }
}

} // verus!
