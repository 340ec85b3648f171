//! The game-state abstraction shared by every game and every agent: player
//! identities, terminal classification, the capability set a game must
//! implement, and the loop that plays a position to completion.

use vstd::prelude::*;

use crate::players::GamePlayer;

pub mod board;
pub mod common;
pub mod connect4;
pub mod tictactoe;

verus! {

/// Classification of a game position: still being played, finished with no
/// winner, or won by one of the two players.
#[derive(Clone, Copy, PartialEq, Eq, Structural, Debug)]
pub enum GameResult {
    InProgress,
    Draw,
    Win(Player),
}

/// One of the two participants. Player 1 always moves first.
#[derive(Clone, Copy, PartialEq, Eq, Structural, Debug)]
pub struct Player(pub usize);

impl Player {
    pub fn new(id: usize) -> (p: Player)
        ensures
            p == Player(id),
    {
        Player(id)
    }
}

/// The capability set every game must implement: move enumeration, turn
/// ownership, move application, and terminal-state classification.
///
/// Each implementation gives its positions an abstract model (`Model`) and
/// describes every operation as a pure function of that model, so that agents
/// written once against this trait carry exact contracts for every game.
pub trait GameState: Sized {
    type Move: Copy;

    type Model;

    /// The abstract value of this position.
    spec fn model(&self) -> Self::Model;

    /// Which models describe positions this game can actually reach.
    spec fn inv(m: Self::Model) -> bool;

    /// The legal moves of a position, in enumeration order.
    spec fn moves_of(m: Self::Model) -> Seq<Self::Move>;

    /// The position reached by applying a move.
    spec fn step_of(m: Self::Model, mv: Self::Move) -> Self::Model;

    /// Terminal classification of a position.
    spec fn result_of(m: Self::Model) -> GameResult;

    /// Whose turn it is; alternates between the two players, starting with
    /// player 1.
    spec fn player_of(m: Self::Model) -> Player;

    /// The move that produced this position, `None` for an initial position.
    spec fn last_of(m: Self::Model) -> Option<Self::Move>;

    /// An upper bound on the number of moves still playable; each applied
    /// move strictly shrinks it, so every playout ends.
    spec fn measure_of(m: Self::Model) -> nat;

    /// A position offers no moves exactly when it is terminal; a win always
    /// belongs to one of the two players, and only those two ever hold the
    /// turn.
    proof fn lemma_terminal(m: Self::Model)
        requires
            Self::inv(m),
        ensures
            (Self::moves_of(m).len() == 0) <==> !(Self::result_of(m) is InProgress),
            Self::result_of(m) matches GameResult::Win(p) ==> p == Player(1) || p == Player(2),
            Self::player_of(m) == Player(1) || Self::player_of(m) == Player(2),
    ;

    /// Applying a legal move preserves reachability, records the move as the
    /// last one, and strictly shrinks the measure.
    proof fn lemma_step(m: Self::Model, mv: Self::Move)
        requires
            Self::inv(m),
            Self::moves_of(m).contains(mv),
        ensures
            Self::inv(Self::step_of(m, mv)),
            Self::last_of(Self::step_of(m, mv)) == Some(mv),
            Self::measure_of(Self::step_of(m, mv)) < Self::measure_of(m),
    ;

    /// All legal moves from this position; empty exactly when the position is
    /// terminal.
    fn get_valid_moves(&self) -> (r: Vec<Self::Move>)
        requires
            Self::inv(self.model()),
        ensures
            r@ == Self::moves_of(self.model()),
    ;

    /// The player whose turn it is.
    fn player_to_move(&self) -> (p: Player)
        requires
            Self::inv(self.model()),
        ensures
            p == Self::player_of(self.model()),
    ;

    /// Apply a legal move, producing the successor position.
    fn do_move(self, m: Self::Move) -> (r: Self)
        requires
            Self::inv(self.model()),
            Self::moves_of(self.model()).contains(m),
        ensures
            r.model() == Self::step_of(self.model(), m),
    ;

    /// The move that produced this position, if any.
    fn last_move(&self) -> (r: Option<Self::Move>)
        requires
            Self::inv(self.model()),
        ensures
            r == Self::last_of(self.model()),
    ;

    /// Classify this position.
    fn check_win(&self) -> (r: GameResult)
        requires
            Self::inv(self.model()),
        ensures
            r == Self::result_of(self.model()),
    ;

    /// An independent copy of this position with the same model.
    fn clone_state(&self) -> (r: Self)
        ensures
            r.model() == self.model(),
    ;
}

/// `r` is the outcome of some complete legal playout from `m`: a sequence
/// of moves, each legal where it is played, ends the game with
/// classification `r` (for a terminal `m`, the empty sequence).
pub open spec fn game_outcome<G: GameState>(m: G::Model, r: GameResult) -> bool {
    &&& !(r is InProgress)
    &&& exists|s: Seq<G::Move>|
        legal_seq::<G>(m, s) && r == G::result_of(apply_moves::<G>(m, s))
}

/// Play a position to completion: the player whose turn it is picks a move,
/// the move is applied, until the game ends. `p1` moves on player 1's turns,
/// `p2` on player 2's — and by `lemma_terminal` nobody else ever holds the
/// turn. The result is the classification of a position legally reached
/// from the input by the players' own moves; a terminal input is handed
/// back as its own classification, with no player consulted.
pub fn play<Game: GameState, P1: GamePlayer, P2: GamePlayer>(
    state: Game,
    p1: &mut P1,
    p2: &mut P2,
) -> (r: GameResult)
    requires
        Game::inv(state.model()),
        old(p1).ready(),
        old(p2).ready(),
    ensures
        final(p1).ready(),
        final(p2).ready(),
        !(r is InProgress),
        r matches GameResult::Win(p) ==> p == Player(1) || p == Player(2),
        !(Game::result_of(state.model()) is InProgress) ==> r == Game::result_of(state.model()),
        game_outcome::<Game>(state.model(), r),
{
    let ghost m0 = state.model();
    let ghost mut played: Seq<Game::Move> = Seq::empty();
    let mut state = state;
    let mut result = state.check_win();
    while result == GameResult::InProgress
        invariant
            Game::inv(state.model()),
            result == Game::result_of(state.model()),
            legal_seq::<Game>(m0, played),
            state.model() == apply_moves::<Game>(m0, played),
            !(Game::result_of(m0) is InProgress) ==> state.model() == m0,
            p1.ready(),
            p2.ready(),
        decreases Game::measure_of(state.model()),
    {
        proof {
            Game::lemma_terminal(state.model());
        }
        let chosen = if state.player_to_move() == Player::new(1) {
            p1.choose_move(&state)
        } else {
            p2.choose_move(&state)
        };
        proof {
            Game::lemma_step(state.model(), chosen);
            lemma_legal_seq_push::<Game>(m0, played, chosen);
            played = played.push(chosen);
        }
        state = state.do_move(chosen);
        result = state.check_win();
    }
    proof {
        Game::lemma_terminal(state.model());
        assert(legal_seq::<Game>(m0, played) && result == Game::result_of(
            apply_moves::<Game>(m0, played),
        ));
    }
    result
}

/// How many entries of `s` are wins for `p`.
pub open spec fn count_wins(s: Seq<GameResult>, p: Player) -> nat
    decreases s.len(),
{
    if s.len() == 0 {
        0
    } else {
        (count_wins(s.drop_first(), p) + (if s[0] == GameResult::Win(p) {
            1int
        } else {
            0int
        })) as nat
    }
}

/// How many entries of `s` are draws.
pub open spec fn count_draws(s: Seq<GameResult>) -> nat
    decreases s.len(),
{
    if s.len() == 0 {
        0
    } else {
        (count_draws(s.drop_first()) + (if s[0] is Draw {
            1int
        } else {
            0int
        })) as nat
    }
}

/// Appending one result raises exactly its own bucket by one.
proof fn lemma_counts_push(s: Seq<GameResult>, r: GameResult, p: Player)
    ensures
        count_wins(s.push(r), p) == count_wins(s, p) + (if r == GameResult::Win(p) {
            1int
        } else {
            0int
        }),
        count_draws(s.push(r)) == count_draws(s) + (if r is Draw {
            1int
        } else {
            0int
        }),
    decreases s.len(),
{
    if s.len() == 0 {
        assert(s.push(r)[0] == r);
        assert(s.push(r).drop_first() =~= Seq::<GameResult>::empty());
        assert(count_wins(s.push(r).drop_first(), p) == 0);
        assert(count_draws(s.push(r).drop_first()) == 0);
    } else {
        assert(s.push(r)[0] == s[0]);
        assert(s.push(r).drop_first() =~= s.drop_first().push(r));
        lemma_counts_push(s.drop_first(), r, p);
    }
}

/// Play `iterations` fresh games from one position and tally the outcomes as
/// (player 1 wins, draws, player 2 wins). Every game ends and every game is
/// a legal playout from the input position, so the tally is exactly the
/// bucket count of one outcome per iteration.
pub fn benchmark_players<Game: GameState, P1: GamePlayer, P2: GamePlayer>(
    state: &Game,
    p1: &mut P1,
    p2: &mut P2,
    iterations: u32,
) -> (tally: (u32, u32, u32))
    requires
        Game::inv(state.model()),
        old(p1).ready(),
        old(p2).ready(),
    ensures
        final(p1).ready(),
        final(p2).ready(),
        tally.0 + tally.1 + tally.2 == iterations,
        exists|rs: Seq<GameResult>|
            {
                &&& rs.len() == iterations
                &&& forall|k: int|
                    0 <= k < rs.len() ==> game_outcome::<Game>(state.model(), #[trigger] rs[k])
                &&& tally.0 == count_wins(rs, Player(1))
                &&& tally.1 == count_draws(rs)
                &&& tally.2 == count_wins(rs, Player(2))
            },
{
    let ghost m0 = state.model();
    let ghost mut rs: Seq<GameResult> = Seq::empty();
    let mut p1_wins: u32 = 0;
    let mut draws: u32 = 0;
    let mut p2_wins: u32 = 0;
    let mut i: u32 = 0;
    while i < iterations
        invariant
            i <= iterations,
            p1_wins + draws + p2_wins == i,
            m0 == state.model(),
            rs.len() == i,
            forall|k: int| 0 <= k < rs.len() ==> game_outcome::<Game>(m0, #[trigger] rs[k]),
            p1_wins == count_wins(rs, Player(1)),
            draws == count_draws(rs),
            p2_wins == count_wins(rs, Player(2)),
            Game::inv(state.model()),
            p1.ready(),
            p2.ready(),
        decreases iterations - i,
    {
        let initial_state = state.clone_state();
        let winner = play(initial_state, p1, p2);
        proof {
            lemma_counts_push(rs, winner, Player(1));
            lemma_counts_push(rs, winner, Player(2));
            rs = rs.push(winner);
        }
        match winner {
            GameResult::Win(player) => {
                if player == Player::new(1) {
                    p1_wins += 1;
                } else {
                    p2_wins += 1;
                }
            },
            GameResult::Draw => {
                draws += 1;
            },
            GameResult::InProgress => {
                proof {
                    assert(false);
                }
            },
        }
        i += 1;
    }
    (p1_wins, draws, p2_wins)
}

/// The model reached from `m` after playing the whole move sequence `s`.
pub open spec fn apply_moves<G: GameState>(m: G::Model, s: Seq<G::Move>) -> G::Model
    decreases s.len(),
{
    if s.len() == 0 {
        m
    } else {
        apply_moves::<G>(G::step_of(m, s[0]), s.drop_first())
    }
}

/// Every move of `s` is legal at the point where it is played, starting
/// from `m`.
pub open spec fn legal_seq<G: GameState>(m: G::Model, s: Seq<G::Move>) -> bool
    decreases s.len(),
{
    s.len() == 0 || (G::moves_of(m).contains(s[0]) && legal_seq::<G>(
        G::step_of(m, s[0]),
        s.drop_first(),
    ))
}

/// Extending a legal playout by one legal move keeps it legal and lands on
/// the stepped position.
pub proof fn lemma_legal_seq_push<G: GameState>(m: G::Model, s: Seq<G::Move>, mv: G::Move)
    requires
        legal_seq::<G>(m, s),
        G::moves_of(apply_moves::<G>(m, s)).contains(mv),
    ensures
        legal_seq::<G>(m, s.push(mv)),
        apply_moves::<G>(m, s.push(mv)) == G::step_of(apply_moves::<G>(m, s), mv),
    decreases s.len(),
{
    if s.len() == 0 {
        assert(s.push(mv)[0] == mv);
        assert(s.push(mv).drop_first() =~= Seq::<G::Move>::empty());
        assert(apply_moves::<G>(m, s) == m);
        assert(legal_seq::<G>(G::step_of(m, mv), s.push(mv).drop_first()));
        assert(legal_seq::<G>(m, s.push(mv)));
        assert(apply_moves::<G>(G::step_of(m, mv), s.push(mv).drop_first()) == G::step_of(
            m,
            mv,
        ));
        assert(apply_moves::<G>(m, s.push(mv)) == G::step_of(m, mv));
    } else {
        assert(s.push(mv)[0] == s[0]);
        assert(s.push(mv).drop_first() =~= s.drop_first().push(mv));
        assert(legal_seq::<G>(G::step_of(m, s[0]), s.drop_first()));
        assert(apply_moves::<G>(m, s) == apply_moves::<G>(
            G::step_of(m, s[0]),
            s.drop_first(),
        ));
        lemma_legal_seq_push::<G>(G::step_of(m, s[0]), s.drop_first(), mv);
        assert(legal_seq::<G>(G::step_of(m, s[0]), s.push(mv).drop_first()));
        assert(legal_seq::<G>(m, s.push(mv)));
        assert(apply_moves::<G>(m, s.push(mv)) == G::step_of(apply_moves::<G>(m, s), mv));
    }
}

/// Clone independence: two positions with equal models stay in lockstep under
/// any shared move sequence, so they classify and enumerate identically
/// forever.
pub proof fn lemma_clone_independence<G: GameState>(x: G, y: G, s: Seq<G::Move>)
    requires
        x.model() == y.model(),
    ensures
        apply_moves::<G>(x.model(), s) == apply_moves::<G>(y.model(), s),
        G::result_of(apply_moves::<G>(x.model(), s)) == G::result_of(
            apply_moves::<G>(y.model(), s),
        ),
        G::moves_of(apply_moves::<G>(x.model(), s)) == G::moves_of(
            apply_moves::<G>(y.model(), s),
        ),
{
}

} // verus!
