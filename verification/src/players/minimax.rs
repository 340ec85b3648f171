//! Exhaustive minimax search: the agent plays a move leading to a position
//! of maximal game-theoretic value for itself, computed by full recursion
//! to the end of the game.

use vstd::prelude::*;

use crate::games::{GameResult, GameState};
use crate::players::GamePlayer;

verus! {

/// The value of a position for the player who just moved into it, under
/// optimal play by both sides: 1 a forced win, 0 a forced draw, -1 a
/// forced loss.
pub open spec fn nvalue<G: GameState>(m: G::Model) -> int
    decreases G::measure_of(m), G::moves_of(m).len() + 1,
    when G::inv(m)
{
    match G::result_of(m) {
        GameResult::Win(_) => 1,
        GameResult::Draw => 0,
        GameResult::InProgress => -best_value::<G>(m, G::moves_of(m).len() as int),
    }
}

/// The best value any of the first `i` moves of a position offers to the
/// player making them.
pub open spec fn best_value<G: GameState>(m: G::Model, i: int) -> int
    decreases G::measure_of(m), i,
    when G::inv(m) && G::result_of(m) is InProgress && 1 <= i <= G::moves_of(m).len()
{
    let v = {
        proof {
            G::lemma_step(m, G::moves_of(m)[i - 1]);
        }
        nvalue::<G>(G::step_of(m, G::moves_of(m)[i - 1]))
    };
    if i <= 1 {
        v
    } else {
        let rest = best_value::<G>(m, i - 1);
        if v > rest {
            v
        } else {
            rest
        }
    }
}

/// The minimax value of a position, by exhaustive search.
pub fn minimax<G: GameState>(state: &G) -> (r: i8)
    requires
        G::inv(state.model()),
    ensures
        r as int == nvalue::<G>(state.model()),
        -1 <= r <= 1,
    decreases G::measure_of(state.model()),
{
    let ghost m = state.model();
    match state.check_win() {
        GameResult::Win(_) => 1,
        GameResult::Draw => 0,
        GameResult::InProgress => {
            let moves = state.get_valid_moves();
            proof {
                G::lemma_terminal(m);
                assert(G::moves_of(m).contains(G::moves_of(m)[0]));
                G::lemma_step(m, G::moves_of(m)[0]);
            }
            let n = moves.len();
            let first = state.clone_state().do_move(moves[0]);
            let mut best = minimax(&first);
            let mut j: usize = 1;
            while j < n
                invariant
                    G::inv(m),
                    G::result_of(m) is InProgress,
                    m == state.model(),
                    moves@ == G::moves_of(m),
                    n == moves@.len(),
                    1 <= j <= n,
                    -1 <= best <= 1,
                    best as int == best_value::<G>(m, j as int),
                decreases n - j,
            {
                proof {
                    assert(G::moves_of(m).contains(G::moves_of(m)[j as int]));
                    G::lemma_step(m, G::moves_of(m)[j as int]);
                }
                let child = state.clone_state().do_move(moves[j]);
                let v = minimax(&child);
                if v > best {
                    best = v;
                }
                j += 1;
            }
            -best
        },
    }
}

/// An agent that always plays a move of maximal minimax value. The depth
/// limit of a bounded search would need a heuristic evaluation of
/// unfinished positions, which no game here provides, so only the
/// unlimited depth (`None`) is fit for use.
#[derive(Clone, Copy)]
pub struct MinimaxPlayer {
    depth: Option<usize>,
}

impl MinimaxPlayer {
    pub fn new(depth: Option<usize>) -> (p: MinimaxPlayer)
        ensures
            depth is None ==> p.ready(),
    {
        MinimaxPlayer { depth }
    }
}

impl GamePlayer for MinimaxPlayer {
    closed spec fn ready(&self) -> bool {
        self.depth is None
    }

    fn choose_move<Game: GameState>(&mut self, game_state: &Game) -> (r: Game::Move)
        ensures
            forall|j: int|
                0 <= j < Game::moves_of(game_state.model()).len() ==> nvalue::<Game>(
                    Game::step_of(
                        game_state.model(),
                        #[trigger] Game::moves_of(game_state.model())[j],
                    ),
                ) <= nvalue::<Game>(Game::step_of(game_state.model(), r)),
    {
        let ghost m = game_state.model();
        let moves = game_state.get_valid_moves();
        proof {
            Game::lemma_terminal(m);
            assert(Game::moves_of(m).contains(Game::moves_of(m)[0]));
            Game::lemma_step(m, Game::moves_of(m)[0]);
        }
        let n = moves.len();
        let mut best_move = moves[0];
        let first = game_state.clone_state().do_move(moves[0]);
        let mut best_val = minimax(&first);
        let mut j: usize = 1;
        while j < n
            invariant
                Game::inv(m),
                Game::result_of(m) is InProgress,
                m == game_state.model(),
                moves@ == Game::moves_of(m),
                n == moves@.len(),
                1 <= j <= n,
                Game::moves_of(m).contains(best_move),
                best_val as int == nvalue::<Game>(Game::step_of(m, best_move)),
                forall|jj: int|
                    0 <= jj < j ==> nvalue::<Game>(
                        Game::step_of(m, #[trigger] Game::moves_of(m)[jj]),
                    ) <= best_val as int,
            decreases n - j,
        {
            proof {
                assert(Game::moves_of(m).contains(Game::moves_of(m)[j as int]));
                Game::lemma_step(m, Game::moves_of(m)[j as int]);
            }
            let child = game_state.clone_state().do_move(moves[j]);
            let v = minimax(&child);
            if v > best_val {
                best_val = v;
                best_move = moves[j];
            }
            j += 1;
        }
        best_move
    }
}

} // verus!
