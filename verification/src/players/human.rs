//! The verified core of an interactive agent: turning a chosen index into
//! the corresponding legal move. The surrounding program shows the move
//! list to the person playing and collects the index.

use vstd::prelude::*;

use crate::games::GameState;

verus! {

/// An agent whose moves are chosen by a person, one index at a time.
pub struct HumanPlayer;

impl HumanPlayer {
    /// The legal move at `index`, or nothing when the index is out of
    /// range, in which case the caller should ask again.
    pub fn pick<Game: GameState>(&self, game_state: &Game, index: usize) -> (r: Option<
        Game::Move,
    >)
        requires
            Game::inv(game_state.model()),
        ensures
            r == if index < Game::moves_of(game_state.model()).len() {
                Some(Game::moves_of(game_state.model())[index as int])
            } else {
                None::<Game::Move>
            },
    {
        let moves = game_state.get_valid_moves();
        if index < moves.len() {
            Some(moves[index])
        } else {
            None
        }
    }
}

} // verus!
