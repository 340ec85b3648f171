//! Tic-Tac-Toe on an arbitrary rectangular board: players alternate placing a
//! piece on any open square, and `num_to_win` pieces in a row (in any of the
//! four line directions) win.

use vstd::prelude::*;

use crate::games::board::{Board, BoardView, Cell, Position};
use crate::games::common::{any_dir_win, wins};
use crate::games::{GameResult, GameState, Player};

verus! {

/// Abstract value of a [`TicTacToe`] position.
pub ghost struct TttView {
    pub board: BoardView,
    pub num_to_win: nat,
    pub open: Seq<Position>,
    pub last: Option<TicTacToeMove>,
}

/// Which views describe reachable Tic-Tac-Toe positions.
pub open spec fn ttt_inv(v: TttView) -> bool {
    &&& v.board.wf()
    &&& v.board.rows >= 1
    &&& v.board.cols >= 1
    &&& v.num_to_win >= 1
    &&& forall|i: int|
        0 <= i < v.open.len() ==> (#[trigger] v.open[i]).row < v.board.rows && v.open[i].col
            < v.board.cols
    &&& v.last is None ==> v.open.len() == v.board.rows * v.board.cols
    &&& v.last matches Some(m) ==> (m.player == Player(1) || m.player == Player(2))
        && m.position.row < v.board.rows && m.position.col < v.board.cols
}

/// Player 1 opens; afterwards the players strictly alternate.
pub open spec fn ttt_player(v: TttView) -> Player {
    match v.last {
        None => Player(1),
        Some(m) => if m.player == Player(1) {
            Player(2)
        } else {
            Player(1)
        },
    }
}

/// A position is won exactly when the last move completed a run; with no
/// last move the game has just begun; with no open square left it is a draw.
pub open spec fn ttt_result(v: TttView) -> GameResult {
    match v.last {
        None => GameResult::InProgress,
        Some(m) => if wins(v.board, m.position, m.player, v.num_to_win) {
            GameResult::Win(m.player)
        } else if v.open.len() == 0 {
            GameResult::Draw
        } else {
            GameResult::InProgress
        },
    }
}

/// One move per open square, all for the player to move; none once the game
/// is over.
pub open spec fn ttt_moves(v: TttView) -> Seq<TicTacToeMove> {
    if !(ttt_result(v) is InProgress) {
        Seq::empty()
    } else {
        Seq::new(v.open.len(), |i: int| TicTacToeMove { position: v.open[i], player: ttt_player(v) })
    }
}

/// `s` with its first occurrence of `p` removed (unchanged if `p` is absent).
pub open spec fn remove_first(s: Seq<Position>, p: Position) -> Seq<Position>
    decreases s.len(),
{
    if s.len() == 0 {
        s
    } else if s[0] == p {
        s.drop_first()
    } else {
        seq![s[0]] + remove_first(s.drop_first(), p)
    }
}

/// Applying a move fills its square, removes it from the open list and
/// records it as the last move.
pub open spec fn ttt_step(v: TttView, m: TicTacToeMove) -> TttView {
    TttView {
        board: v.board.upd(m.position, Cell::Piece(m.player)),
        num_to_win: v.num_to_win,
        open: remove_first(v.open, m.position),
        last: Some(m),
    }
}

/// The view of a freshly created `rows` by `cols` board: empty, every square
/// open (row-major), no last move.
pub open spec fn ttt_fresh(rows: usize, cols: usize, num_to_win: usize) -> TttView {
    TttView {
        board: BoardView {
            rows: rows as nat,
            cols: cols as nat,
            cells: Seq::new((rows * cols) as nat, |i: int| Cell::Empty),
        },
        num_to_win: num_to_win as nat,
        open: Seq::new(
            (rows * cols) as nat,
            |i: int|
                Position {
                    row: (i / cols as int) as usize,
                    col: (i % cols as int) as usize,
                },
        ),
        last: None,
    }
}

/// Removing a present element shortens the sequence by one and introduces no
/// new elements.
proof fn lemma_remove_first(s: Seq<Position>, p: Position)
    requires
        s.contains(p),
    ensures
        remove_first(s, p).len() == s.len() - 1,
        forall|j: int|
            0 <= j < remove_first(s, p).len() ==> s.contains(#[trigger] remove_first(s, p)[j]),
    decreases s.len(),
{
    let rf = remove_first(s, p);
    if s[0] == p {
        assert forall|j: int| 0 <= j < rf.len() implies s.contains(#[trigger] rf[j]) by {
            assert(s[j + 1] == rf[j]);
        }
    } else {
        let i = choose|i: int| 0 <= i < s.len() && s[i] == p;
        assert(s.drop_first()[i - 1] == p);
        assert(s.drop_first().contains(p));
        lemma_remove_first(s.drop_first(), p);
        let sub = remove_first(s.drop_first(), p);
        assert forall|j: int| 0 <= j < rf.len() implies s.contains(#[trigger] rf[j]) by {
            if j == 0 {
                assert(s[0] == rf[0]);
            } else {
                assert(rf[j] == sub[j - 1]);
                assert(s.drop_first().contains(sub[j - 1]));
                let l = choose|l: int|
                    0 <= l < s.drop_first().len() && s.drop_first()[l] == sub[j - 1];
                assert(s[l + 1] == sub[j - 1]);
            }
        }
    }
}

/// Removing the first occurrence of `p` is removal at its first index.
proof fn lemma_remove_first_at(s: Seq<Position>, p: Position, idx: int)
    requires
        0 <= idx < s.len(),
        s[idx] == p,
        forall|j: int| 0 <= j < idx ==> s[j] != p,
    ensures
        s.remove(idx) == remove_first(s, p),
    decreases idx,
{
    if idx == 0 {
        assert(s.remove(0) =~= s.drop_first());
    } else {
        assert(s.drop_first()[idx - 1] == p);
        assert forall|j: int| 0 <= j < idx - 1 implies s.drop_first()[j] != p by {
            assert(s.drop_first()[j] == s[j + 1]);
        }
        lemma_remove_first_at(s.drop_first(), p, idx - 1);
        assert(s.remove(idx) =~= seq![s[0]] + s.drop_first().remove(idx - 1));
    }
}

/// A Tic-Tac-Toe position: the board, the win-run length, the remaining open
/// squares, and the move that produced the position.
pub struct TicTacToe {
    board: Board,
    num_to_win: usize,
    open_positions: Vec<Position>,
    last_move: Option<TicTacToeMove>,
}

/// Placing one player's piece on one square.
#[derive(Clone, Copy, PartialEq, Eq, Structural, Debug)]
pub struct TicTacToeMove {
    pub position: Position,
    pub player: Player,
}

impl TicTacToe {
    /// A fresh, empty `rows` by `cols` board needing `num_to_win` in a row.
    pub fn new(rows: usize, cols: usize, num_to_win: usize) -> (g: TicTacToe)
        requires
            rows >= 1,
            cols >= 1,
            num_to_win >= 1,
            rows * cols <= usize::MAX,
        ensures
            g.model() == ttt_fresh(rows, cols, num_to_win),
            ttt_inv(g.model()),
    {
        let mut open_positions: Vec<Position> = Vec::new();
        let mut row: usize = 0;
        while row < rows
            invariant
                row <= rows,
                rows * cols <= usize::MAX,
                cols >= 1,
                open_positions@.len() == row * cols,
                forall|idx: int|
                    0 <= idx < open_positions@.len() ==> (#[trigger] open_positions@[idx]).row
                        as int == idx / cols as int && open_positions@[idx].col as int == idx
                        % cols as int,
            decreases rows - row,
        {
            let mut col: usize = 0;
            proof {
                assert(row * cols + cols <= rows * cols) by (nonlinear_arith)
                    requires
                        row < rows,
                        cols >= 1,
                ;
            }
            while col < cols
                invariant
                    col <= cols,
                    row * cols + cols <= rows * cols <= usize::MAX,
                    open_positions@.len() == row * cols + col,
                    forall|idx: int|
                        0 <= idx < open_positions@.len() ==> (#[trigger] open_positions@[idx]).row
                            as int == idx / cols as int && open_positions@[idx].col as int == idx
                            % cols as int,
                decreases cols - col,
            {
                open_positions.push(Position { row, col });
                proof {
                    assert((row * cols + col) / cols as int == row as int && (row * cols + col)
                        % cols as int == col as int) by (nonlinear_arith)
                        requires
                            col < cols,
                            cols >= 1,
                    ;
                }
                col += 1;
            }
            row += 1;
            proof {
                assert((row - 1) * cols + cols == row * cols) by (nonlinear_arith);
            }
        }
        let g = TicTacToe {
            board: Board::new(rows, cols),
            num_to_win,
            open_positions,
            last_move: None,
        };
        proof {
            assert(g.model().open =~= ttt_fresh(rows, cols, num_to_win).open);
            assert(g.model() == ttt_fresh(rows, cols, num_to_win));
            assert forall|i: int| 0 <= i < g.model().open.len() implies (
            #[trigger] g.model().open[i]).row < g.model().board.rows && g.model().open[i].col
                < g.model().board.cols by {
                assert(i / (cols as int) < (rows as int) && 0 <= i / (cols as int) && 0 <= i % (
                cols as int) < (cols as int)) by (nonlinear_arith)
                    requires
                        0 <= i < rows * cols,
                        cols >= 1,
                ;
            }
        }
        g
    }

    /// Read access to the board, for rendering.
    pub fn board(&self) -> (b: &Board)
        ensures
            b@ == self.model().board,
    {
        &self.board
    }
}

impl GameState for TicTacToe {
    type Move = TicTacToeMove;

    type Model = TttView;

    closed spec fn model(&self) -> TttView {
        TttView {
            board: self.board@,
            num_to_win: self.num_to_win as nat,
            open: self.open_positions@,
            last: self.last_move,
        }
    }

    open spec fn inv(m: TttView) -> bool {
        ttt_inv(m)
    }

    open spec fn moves_of(m: TttView) -> Seq<TicTacToeMove> {
        ttt_moves(m)
    }

    open spec fn step_of(m: TttView, mv: TicTacToeMove) -> TttView {
        ttt_step(m, mv)
    }

    open spec fn result_of(m: TttView) -> GameResult {
        ttt_result(m)
    }

    open spec fn player_of(m: TttView) -> Player {
        ttt_player(m)
    }

    open spec fn last_of(m: TttView) -> Option<TicTacToeMove> {
        m.last
    }

    open spec fn measure_of(m: TttView) -> nat {
        m.open.len()
    }

    proof fn lemma_terminal(m: TttView) {
        if ttt_result(m) is InProgress {
            match m.last {
                None => {
                    assert(m.board.rows * m.board.cols >= 1) by (nonlinear_arith)
                        requires
                            m.board.rows >= 1,
                            m.board.cols >= 1,
                    ;
                },
                Some(_) => {},
            }
        }
    }

    proof fn lemma_step(m: TttView, mv: TicTacToeMove) {
        assert(ttt_moves(m).contains(mv));
        assert(ttt_result(m) is InProgress);
        let i = choose|i: int| 0 <= i < ttt_moves(m).len() && ttt_moves(m)[i] == mv;
        assert(ttt_moves(m)[i] == mv);
        assert(mv.position == m.open[i]);
        assert(mv.player == ttt_player(m));
        assert(m.open.contains(mv.position));
        lemma_remove_first(m.open, mv.position);
        let v2 = ttt_step(m, mv);
        assert forall|j: int| 0 <= j < v2.open.len() implies (#[trigger] v2.open[j]).row
            < v2.board.rows && v2.open[j].col < v2.board.cols by {
            assert(m.open.contains(v2.open[j]));
            let l = choose|l: int| 0 <= l < m.open.len() && m.open[l] == v2.open[j];
            assert(m.open[l].row < m.board.rows);
        }
        assert(mv.position.row < m.board.rows && mv.position.col < m.board.cols);
        assert(mv.position.row * m.board.cols + mv.position.col < m.board.rows * m.board.cols)
            by (nonlinear_arith)
            requires
                mv.position.row < m.board.rows,
                mv.position.col < m.board.cols,
        ;
        assert(v2.board.wf());
        assert(v2.board.rows >= 1 && v2.board.cols >= 1);
        assert(v2.num_to_win >= 1);
        assert(v2.last matches Some(mm) ==> (mm.player == Player(1) || mm.player == Player(2))
            && mm.position.row < v2.board.rows && mm.position.col < v2.board.cols);
        assert(v2.open.len() < m.open.len());
        assert(ttt_inv(v2));
    }

    fn get_valid_moves(&self) -> (r: Vec<TicTacToeMove>) {
        if !(self.check_win() == GameResult::InProgress) {
            let r: Vec<TicTacToeMove> = Vec::new();
            proof {
                assert(r@ =~= ttt_moves(self.model()));
            }
            return r;
        }
        let player = self.player_to_move();
        let mut r: Vec<TicTacToeMove> = Vec::new();
        let n = self.open_positions.len();
        let mut i: usize = 0;
        while i < n
            invariant
                i <= n,
                n == self.open_positions@.len(),
                r@.len() == i,
                player == ttt_player(self.model()),
                forall|j: int|
                    0 <= j < i ==> r@[j] == (TicTacToeMove {
                        position: self.model().open[j],
                        player: ttt_player(self.model()),
                    }),
            decreases n - i,
        {
            r.push(TicTacToeMove { position: self.open_positions[i], player });
            i += 1;
        }
        proof {
            assert(r@ =~= ttt_moves(self.model()));
        }
        r
    }

    fn player_to_move(&self) -> (p: Player) {
        match self.last_move {
            Some(last) => if last.player == Player::new(1) {
                Player::new(2)
            } else {
                Player::new(1)
            },
            None => Player::new(1),
        }
    }

    fn do_move(self, m: TicTacToeMove) -> (r: TicTacToe) {
        let ghost v0 = self.model();
        let mut s = self;
        let ghost i = choose|i: int| 0 <= i < ttt_moves(v0).len() && ttt_moves(v0)[i] == m;
        let n = s.open_positions.len();
        let ghost mut w: int = 0;
        proof {
            assert(v0.open[i] == m.position);
            w = seq_first_index(v0.open, m.position, i);
        }
        let mut index: usize = 0;
        while !(s.open_positions[index] == m.position)
            invariant
                n == s.open_positions@.len(),
                s.open_positions@ == v0.open,
                0 <= w < n,
                v0.open[w] == m.position,
                forall|j: int| 0 <= j < w ==> v0.open[j] != m.position,
                index <= w,
                forall|j: int| 0 <= j < index ==> v0.open[j] != m.position,
            decreases w - index,
        {
            index += 1;
        }
        proof {
            lemma_remove_first_at(v0.open, m.position, index as int);
        }
        s.open_positions.remove(index);
        s.board.set(m.position, Cell::Piece(m.player));
        s.last_move = Some(m);
        proof {
            assert(s.model() == ttt_step(v0, m));
        }
        s
    }

    fn last_move(&self) -> (r: Option<TicTacToeMove>) {
        self.last_move
    }

    fn check_win(&self) -> (r: GameResult) {
        let last = match self.last_move {
            Some(m) => m,
            None => {
                return GameResult::InProgress;
            },
        };
        if any_dir_win(&self.board, last.position, last.player, self.num_to_win) {
            GameResult::Win(last.player)
        } else if self.open_positions.len() == 0 {
            GameResult::Draw
        } else {
            GameResult::InProgress
        }
    }

    fn clone_state(&self) -> (r: TicTacToe) {
        let r = TicTacToe {
            board: self.board.clone(),
            num_to_win: self.num_to_win,
            open_positions: self.open_positions.clone(),
            last_move: self.last_move,
        };
        proof {
            assert(r.open_positions@ =~= self.open_positions@);
        }
        r
    }
}

/// The first index holding `p`, given some index that holds it.
proof fn seq_first_index(s: Seq<Position>, p: Position, i: int) -> (first: int)
    requires
        0 <= i < s.len(),
        s[i] == p,
    ensures
        0 <= first < s.len(),
        s[first] == p,
        forall|j: int| 0 <= j < first ==> s[j] != p,
    decreases i,
{
    if forall|j: int| 0 <= j < i ==> s[j] != p {
        i
    } else {
        let e = choose|e: int| 0 <= e < i && s[e] == p;
        seq_first_index(s, p, e)
    }
}

} // verus!
