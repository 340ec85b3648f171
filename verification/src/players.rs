//! Decision-making agents: the capability a game loop needs from a player,
//! and the agents that provide it.

use vstd::prelude::*;

use crate::games::GameState;

pub mod human;
pub mod mcts;
pub mod minimax;
pub mod random;

verus! {

/// An agent that can pick a legal move in any game.
pub trait GamePlayer: Sized {
    /// Whether this agent is in a state fit to choose moves; choosing a move
    /// keeps it fit.
    spec fn ready(&self) -> bool;

    /// Pick one legal move for a position that still offers moves.
    fn choose_move<Game: GameState>(&mut self, game_state: &Game) -> (r: Game::Move)
        requires
            old(self).ready(),
            Game::inv(game_state.model()),
            Game::result_of(game_state.model()) is InProgress,
        ensures
            final(self).ready(),
            Game::moves_of(game_state.model()).contains(r),
    ;
}

} // verus!
