//! An agent that picks uniformly at random among the legal moves. It backs
//! the rollout phase of the search agents; a fixed seed makes it
//! reproducible, a fresh one makes it independent per use.

use vstd::prelude::*;

use rand::Rng;
use rand::SeedableRng;

use crate::games::GameState;
use crate::players::GamePlayer;

verus! {

/// Declares rand's `StdRng` to the verifier: an opaque pseudo-random number
/// generator, carried in agent state and consumed only through the wrappers
/// below.
#[verifier::external_type_specification]
#[verifier::external_body]
pub struct ExStdRng(rand::rngs::StdRng);

/// Relies on rand's `SeedableRng::seed_from_u64` for `StdRng`: builds a
/// generator from a 64-bit seed; returns for every seed.
#[verifier::external_body]
pub(crate) fn rng_from_seed(seed: u64) -> rand::rngs::StdRng {
    rand::rngs::StdRng::seed_from_u64(seed)
}

/// Relies on rand's `thread_rng` and `Rng::gen`: draws one 64-bit value
/// from the thread-local generator. `thread_rng` aborts at its first use on
/// a thread if the operating system's entropy source fails — an environment
/// failure outside any caller's control, like allocation failure.
#[verifier::external_body]
pub(crate) fn entropy_seed() -> u64 {
    rand::thread_rng().gen()
}

/// Relies on rand's `Rng::gen`: draws one 64-bit value from the given
/// generator.
#[verifier::external_body]
pub(crate) fn rng_u64(rng: &mut rand::rngs::StdRng) -> u64 {
    rng.gen()
}

/// Relies on rand's `Rng::gen_range`: returns a member of the given range,
/// so a value below `n`; it panics on an empty range, hence the
/// precondition.
#[verifier::external_body]
pub(crate) fn rng_below(rng: &mut rand::rngs::StdRng, n: usize) -> (r: usize)
    requires
        n >= 1,
    ensures
        r < n,
{
    rng.gen_range(0..n)
}

/// An agent that draws every move uniformly at random from its own
/// generator.
pub struct RandomPlayer {
    rng: rand::rngs::StdRng,
}

impl RandomPlayer {
    /// A player seeded from thread-local entropy: independent per instance.
    pub fn new() -> RandomPlayer {
        RandomPlayer::from_seed(entropy_seed())
    }

    /// A player with a fixed seed: its move sequence is reproducible.
    pub fn from_seed(seed: u64) -> RandomPlayer {
        RandomPlayer { rng: rng_from_seed(seed) }
    }
}

impl GamePlayer for RandomPlayer {
    open spec fn ready(&self) -> bool {
        true
    }

    fn choose_move<Game: GameState>(&mut self, game_state: &Game) -> (r: Game::Move) {
        let moves = game_state.get_valid_moves();
        proof {
            Game::lemma_terminal(game_state.model());
        }
        let index = rng_below(&mut self.rng, moves.len());
        let r = moves[index];
        proof {
            assert(Game::moves_of(game_state.model()).contains(r));
        }
        r
    }
}

} // verus!
