//! Connect-4-style gravity game: each column offers exactly one open square
//! (the lowest empty one); a played piece either closes its column or raises
//! the column's open square by one row. Row 0 is the top of the board.

use vstd::prelude::*;

use crate::games::board::{Board, BoardView, Cell, Position};
use crate::games::common::{any_dir_win, wins};
use crate::games::{GameResult, GameState, Player};

verus! {

/// Abstract value of a [`Connect4`] position.
pub ghost struct C4View {
    pub board: BoardView,
    pub num_to_win: nat,
    pub open: Seq<Position>,
    pub last: Option<Connect4Move>,
}

/// Which views describe reachable Connect-4 positions.
pub open spec fn c4_inv(v: C4View) -> bool {
    &&& v.board.wf()
    &&& v.board.rows >= 1
    &&& v.board.cols >= 1
    &&& v.num_to_win >= 1
    &&& forall|i: int|
        0 <= i < v.open.len() ==> (#[trigger] v.open[i]).row < v.board.rows && v.open[i].col
            < v.board.cols
    &&& forall|i: int, j: int|
        0 <= i < j < v.open.len() ==> (#[trigger] v.open[i]).col != (#[trigger] v.open[j]).col
    &&& v.last is None ==> v.open.len() == v.board.cols
    &&& v.last matches Some(m) ==> (m.player == Player(1) || m.player == Player(2))
        && m.position.row < v.board.rows && m.position.col < v.board.cols
}

/// Player 1 opens; afterwards the players strictly alternate.
pub open spec fn c4_player(v: C4View) -> Player {
    match v.last {
        None => Player(1),
        Some(m) => if m.player == Player(1) {
            Player(2)
        } else {
            Player(1)
        },
    }
}

/// A position is won exactly when the last move completed a run; with no
/// last move the game has just begun; with no open column left it is a draw.
pub open spec fn c4_result(v: C4View) -> GameResult {
    match v.last {
        None => GameResult::InProgress,
        Some(m) => if wins(v.board, m.position, m.player, v.num_to_win) {
            GameResult::Win(m.player)
        } else if v.open.len() == 0 {
            GameResult::Draw
        } else {
            GameResult::InProgress
        },
    }
}

/// One move per open column square, all for the player to move; none once
/// the game is over.
pub open spec fn c4_moves(v: C4View) -> Seq<Connect4Move> {
    if !(c4_result(v) is InProgress) {
        Seq::empty()
    } else {
        Seq::new(v.open.len(), |i: int| Connect4Move { position: v.open[i], player: c4_player(v) })
    }
}

/// The first index whose entry sits in column `c`.
pub open spec fn col_index(s: Seq<Position>, c: usize) -> int
    decreases s.len(),
{
    if s.len() == 0 {
        0
    } else if s[0].col == c {
        0
    } else {
        1 + col_index(s.drop_first(), c)
    }
}

/// Applying a move fills its square and either closes its column (a piece
/// reached row 0) or moves the column's open square one row up.
pub open spec fn c4_step(v: C4View, m: Connect4Move) -> C4View {
    let i = col_index(v.open, m.position.col);
    let open = if v.open[i].row == 0 {
        v.open.remove(i)
    } else {
        v.open.update(i, Position { row: (v.open[i].row - 1) as usize, col: v.open[i].col })
    };
    C4View {
        board: v.board.upd(m.position, Cell::Piece(m.player)),
        num_to_win: v.num_to_win,
        open,
        last: Some(m),
    }
}

/// The view of a freshly created board: empty, one open square at the bottom
/// of each column, no last move.
pub open spec fn c4_fresh(rows: usize, cols: usize, num_to_win: usize) -> C4View {
    C4View {
        board: BoardView {
            rows: rows as nat,
            cols: cols as nat,
            cells: Seq::new((rows * cols) as nat, |i: int| Cell::Empty),
        },
        num_to_win: num_to_win as nat,
        open: Seq::new(
            cols as nat,
            |i: int| Position { row: (rows - 1) as usize, col: i as usize },
        ),
        last: None,
    }
}

/// Total remaining capacity of the open columns: each open square at row `r`
/// admits `r + 1` more pieces.
pub open spec fn sum_rows(s: Seq<Position>) -> nat
    decreases s.len(),
{
    if s.len() == 0 {
        0
    } else {
        (s[0].row + 1 + sum_rows(s.drop_first())) as nat
    }
}

/// Removing an entry subtracts its capacity from the total.
proof fn lemma_sum_rows_remove(s: Seq<Position>, i: int)
    requires
        0 <= i < s.len(),
    ensures
        sum_rows(s.remove(i)) == sum_rows(s) - (s[i].row + 1),
    decreases i,
{
    if i == 0 {
        assert(s.remove(0) =~= s.drop_first());
    } else {
        lemma_sum_rows_remove(s.drop_first(), i - 1);
        assert(s.remove(i).drop_first() =~= s.drop_first().remove(i - 1));
        assert(s.remove(i)[0] == s[0]);
    }
}

/// Replacing an entry swaps its capacity in the total.
proof fn lemma_sum_rows_update(s: Seq<Position>, i: int, p: Position)
    requires
        0 <= i < s.len(),
    ensures
        sum_rows(s.update(i, p)) == sum_rows(s) - (s[i].row + 1) + (p.row + 1),
    decreases i,
{
    if i == 0 {
        assert(s.update(0, p).drop_first() =~= s.drop_first());
        assert(s.update(0, p)[0] == p);
    } else {
        lemma_sum_rows_update(s.drop_first(), i - 1, p);
        assert(s.update(i, p).drop_first() =~= s.drop_first().update(i - 1, p));
        assert(s.update(i, p)[0] == s[0]);
    }
}

/// If some entry sits in column `c`, then `col_index` names the first one.
proof fn lemma_col_index(s: Seq<Position>, c: usize)
    requires
        exists|i: int| 0 <= i < s.len() && (#[trigger] s[i]).col == c,
    ensures
        0 <= col_index(s, c) < s.len(),
        s[col_index(s, c)].col == c,
        forall|j: int| 0 <= j < col_index(s, c) ==> (#[trigger] s[j]).col != c,
    decreases s.len(),
{
    if s[0].col == c {
    } else {
        let i = choose|i: int| 0 <= i < s.len() && (#[trigger] s[i]).col == c;
        assert(s.drop_first()[i - 1].col == c);
        lemma_col_index(s.drop_first(), c);
        assert forall|j: int| 0 <= j < col_index(s, c) implies (#[trigger] s[j]).col != c by {
            if j > 0 {
                assert(s.drop_first()[j - 1].col != c);
            }
        }
    }
}

/// A Connect-4 position: the board, the win-run length, the open square of
/// each unfilled column, and the move that produced the position.
pub struct Connect4 {
    board: Board,
    num_to_win: usize,
    open_positions: Vec<Position>,
    last_move: Option<Connect4Move>,
}

/// Dropping one player's piece onto one column's open square.
#[derive(Clone, Copy, PartialEq, Eq, Structural, Debug)]
pub struct Connect4Move {
    pub position: Position,
    pub player: Player,
}

impl Connect4 {
    /// A fresh, empty `rows` by `cols` board needing `num_to_win` in a row.
    pub fn new(rows: usize, cols: usize, num_to_win: usize) -> (g: Connect4)
        requires
            rows >= 1,
            cols >= 1,
            num_to_win >= 1,
            rows * cols <= usize::MAX,
        ensures
            g.model() == c4_fresh(rows, cols, num_to_win),
            c4_inv(g.model()),
    {
        let mut open_positions: Vec<Position> = Vec::new();
        let mut i: usize = 0;
        while i < cols
            invariant
                i <= cols,
                rows >= 1,
                open_positions@.len() == i,
                forall|j: int|
                    0 <= j < i ==> open_positions@[j] == (Position {
                        row: (rows - 1) as usize,
                        col: j as usize,
                    }),
            decreases cols - i,
        {
            open_positions.push(Position { row: rows - 1, col: i });
            i += 1;
        }
        let g = Connect4 {
            board: Board::new(rows, cols),
            num_to_win,
            open_positions,
            last_move: None,
        };
        proof {
            assert(g.model().open =~= c4_fresh(rows, cols, num_to_win).open);
            assert(g.model() == c4_fresh(rows, cols, num_to_win));
        }
        g
    }

    /// Read access to the board, for rendering.
    pub fn board(&self) -> (b: &Board)
        ensures
            b@ == self.model().board,
    {
        &self.board
    }
}

impl GameState for Connect4 {
    type Move = Connect4Move;

    type Model = C4View;

    closed spec fn model(&self) -> C4View {
        C4View {
            board: self.board@,
            num_to_win: self.num_to_win as nat,
            open: self.open_positions@,
            last: self.last_move,
        }
    }

    open spec fn inv(m: C4View) -> bool {
        c4_inv(m)
    }

    open spec fn moves_of(m: C4View) -> Seq<Connect4Move> {
        c4_moves(m)
    }

    open spec fn step_of(m: C4View, mv: Connect4Move) -> C4View {
        c4_step(m, mv)
    }

    open spec fn result_of(m: C4View) -> GameResult {
        c4_result(m)
    }

    open spec fn player_of(m: C4View) -> Player {
        c4_player(m)
    }

    open spec fn last_of(m: C4View) -> Option<Connect4Move> {
        m.last
    }

    open spec fn measure_of(m: C4View) -> nat {
        sum_rows(m.open)
    }

    proof fn lemma_terminal(m: C4View) {
    }

    proof fn lemma_step(m: C4View, mv: Connect4Move) {
        let w = choose|w: int| 0 <= w < c4_moves(m).len() && c4_moves(m)[w] == mv;
        assert(mv.position == m.open[w]);
        assert((#[trigger] m.open[w]).col == mv.position.col);
        lemma_col_index(m.open, mv.position.col);
        let i = col_index(m.open, mv.position.col);
        assert(i == w);
        assert(m.open[i] == mv.position);
        let v2 = c4_step(m, mv);
        assert(mv.position.row * m.board.cols + mv.position.col < m.board.rows * m.board.cols)
            by (nonlinear_arith)
            requires
                mv.position.row < m.board.rows,
                mv.position.col < m.board.cols,
        ;
        if m.open[i].row == 0 {
            lemma_sum_rows_remove(m.open, i);
            assert forall|j1: int, j2: int| 0 <= j1 < j2 < v2.open.len() implies (
            #[trigger] v2.open[j1]).col != (#[trigger] v2.open[j2]).col by {
                let o1 = if j1 < i { j1 } else { j1 + 1 };
                let o2 = if j2 < i { j2 } else { j2 + 1 };
                assert(v2.open[j1] == m.open[o1] && v2.open[j2] == m.open[o2]);
            }
            assert forall|j: int| 0 <= j < v2.open.len() implies (#[trigger] v2.open[j]).row
                < v2.board.rows && v2.open[j].col < v2.board.cols by {
                let o = if j < i { j } else { j + 1 };
                assert(v2.open[j] == m.open[o]);
            }
        } else {
            lemma_sum_rows_update(
                m.open,
                i,
                Position { row: (m.open[i].row - 1) as usize, col: m.open[i].col },
            );
        }
        assert(c4_inv(v2));
        assert(sum_rows(v2.open) < sum_rows(m.open));
    }

    fn get_valid_moves(&self) -> (r: Vec<Connect4Move>) {
        if !(self.check_win() == GameResult::InProgress) {
            let r: Vec<Connect4Move> = Vec::new();
            proof {
                assert(r@ =~= c4_moves(self.model()));
            }
            return r;
        }
        let player = self.player_to_move();
        let mut r: Vec<Connect4Move> = Vec::new();
        let n = self.open_positions.len();
        let mut i: usize = 0;
        while i < n
            invariant
                i <= n,
                n == self.open_positions@.len(),
                r@.len() == i,
                player == c4_player(self.model()),
                forall|j: int|
                    0 <= j < i ==> r@[j] == (Connect4Move {
                        position: self.model().open[j],
                        player: c4_player(self.model()),
                    }),
            decreases n - i,
        {
            r.push(Connect4Move { position: self.open_positions[i], player });
            i += 1;
        }
        proof {
            assert(r@ =~= c4_moves(self.model()));
        }
        r
    }

    fn player_to_move(&self) -> (p: Player) {
        match self.last_move {
            Some(last) => if last.player == Player::new(1) {
                Player::new(2)
            } else {
                Player::new(1)
            },
            None => Player::new(1),
        }
    }

    fn do_move(self, m: Connect4Move) -> (r: Connect4) {
        let ghost v0 = self.model();
        let mut s = self;
        let ghost w = choose|w: int| 0 <= w < c4_moves(v0).len() && c4_moves(v0)[w] == m;
        proof {
            assert(v0.open[w] == m.position);
            assert((#[trigger] v0.open[w]).col == m.position.col);
            lemma_col_index(v0.open, m.position.col);
        }
        let ghost ci = col_index(v0.open, m.position.col);
        let n = s.open_positions.len();
        let mut index: usize = 0;
        while !(s.open_positions[index].col == m.position.col)
            invariant
                n == s.open_positions@.len(),
                s.open_positions@ == v0.open,
                0 <= ci < n,
                v0.open[ci].col == m.position.col,
                forall|j: int| 0 <= j < ci ==> (#[trigger] v0.open[j]).col != m.position.col,
                index <= ci,
                forall|j: int| 0 <= j < index ==> (#[trigger] v0.open[j]).col != m.position.col,
            decreases ci - index,
        {
            index += 1;
        }
        proof {
            assert(index == ci);
            // distinct columns: the matched entry is the move's square itself
            assert(v0.open[index as int] == m.position);
        }
        let p = s.open_positions[index];
        if p.row == 0 {
            s.open_positions.remove(index);
        } else {
            s.open_positions.set(index, Position { row: p.row - 1, col: p.col });
        }
        s.board.set(m.position, Cell::Piece(m.player));
        s.last_move = Some(m);
        proof {
            assert(s.model() == c4_step(v0, m));
        }
        s
    }

    fn last_move(&self) -> (r: Option<Connect4Move>) {
        self.last_move
    }

    fn check_win(&self) -> (r: GameResult) {
        let last = match self.last_move {
            Some(m) => m,
            None => {
                return GameResult::InProgress;
            },
        };
        if any_dir_win(&self.board, last.position, last.player, self.num_to_win) {
            GameResult::Win(last.player)
        } else if self.open_positions.len() == 0 {
            GameResult::Draw
        } else {
            GameResult::InProgress
        }
    }

    fn clone_state(&self) -> (r: Connect4) {
        let r = Connect4 {
            board: self.board.clone(),
            num_to_win: self.num_to_win,
            open_positions: self.open_positions.clone(),
            last_move: self.last_move,
        };
        proof {
            assert(r.open_positions@ =~= self.open_positions@);
        }
        r
    }
}

} // verus!
