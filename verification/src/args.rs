//! How the agent is asked to choose its moves.

use vstd::prelude::*;

verus! {

/// The way of choosing a move.
#[derive(Debug, Clone, Copy, PartialEq, Eq)]
pub enum Mode {
    /// Chooses a legal move with equal probability
    Random,
    /// Uses eval + negamax + alpha-beta pruning to determine next move
    Minimax,
    /// Same as minimax, but prioritises evaluating better moves
    MinimaxSorted,
    /// MinimaxSorted, but the depth is cranked just so it doesn't break time limits
    TournamentMode,
}

/// What the command line asks for.
#[derive(Debug, Clone, Copy, PartialEq, Eq)]
pub struct Cli {
    /// Select AI mode
    pub mode: Mode,
}

impl Mode {
    /// The first depth of the search and whether it tries moves by score;
    /// none for the mode that does not search.
    pub open spec fn settings(self) -> Option<(usize, bool)> {
        match self {
            Mode::Random => None,
            Mode::Minimax => Some((4, false)),
            Mode::MinimaxSorted => Some((4, true)),
            Mode::TournamentMode => Some((6, true)),
        }
    }

    /// The first depth of the search and whether it tries moves by score;
    /// none for the mode that does not search.
    pub fn search_settings(self) -> (r: Option<(usize, bool)>)
        ensures
            r == self.settings(),
    {
        match self {
            Mode::Random => None,
            Mode::Minimax => Some((4, false)),
            Mode::MinimaxSorted => Some((4, true)),
            Mode::TournamentMode => Some((6, true)),
        }
    }
}

} // verus!
