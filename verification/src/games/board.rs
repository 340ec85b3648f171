//! A rectangular grid of cells stored row-major in a single vector,
//! addressed by (row, column) positions.

use vstd::prelude::*;

use crate::games::Player;

verus! {

/// Abstract value of a [`Board`]: its dimensions and the row-major
/// sequence of its cells.
pub ghost struct BoardView {
    pub rows: nat,
    pub cols: nat,
    pub cells: Seq<Cell>,
}

impl BoardView {
    /// A board is well formed when it holds exactly one cell per grid square.
    pub open spec fn wf(&self) -> bool {
        self.cells.len() == self.rows * self.cols
    }

    /// The cell at a (row, column) pair, row-major.
    pub open spec fn at(&self, row: int, col: int) -> Cell {
        self.cells[row * self.cols + col]
    }

    /// The board with the cell at `p` overwritten by `c`.
    pub open spec fn upd(&self, p: Position, c: Cell) -> BoardView {
        BoardView { cells: self.cells.update(p.row * self.cols + p.col, c), ..*self }
    }
}

/// A rectangular game board; every cell starts [`Cell::Empty`].
pub struct Board {
    data: Vec<Cell>,
    rows: usize,
    cols: usize,
}

impl View for Board {
    type V = BoardView;

    closed spec fn view(&self) -> BoardView {
        BoardView { rows: self.rows as nat, cols: self.cols as nat, cells: self.data@ }
    }
}

impl Clone for Board {
    fn clone(&self) -> (b: Self)
        ensures
            b@ == self@,
    {
        let b = Board { data: self.data.clone(), rows: self.rows, cols: self.cols };
        proof {
            assert(b@.cells =~= self@.cells);
        }
        b
    }
}

impl Board {
    pub fn new(rows: usize, cols: usize) -> (b: Board)
        requires
            rows * cols <= usize::MAX,
        ensures
            b@.rows == rows,
            b@.cols == cols,
            b@.cells == Seq::new((rows * cols) as nat, |i: int| Cell::Empty),
            b@.wf(),
    {
        let n = rows * cols;
        let mut data: Vec<Cell> = Vec::new();
        let mut i: usize = 0;
        while i < n
            invariant
                i <= n,
                data@.len() == i,
                forall|j: int| 0 <= j < i ==> data@[j] == Cell::Empty,
            decreases n - i,
        {
            data.push(Cell::Empty);
            i += 1;
        }
        let b = Board { data, rows, cols };
        proof {
            assert(b@.cells =~= Seq::new((rows * cols) as nat, |i: int| Cell::Empty));
        }
        b
    }

    pub fn rows(&self) -> (r: usize)
        ensures
            r == self@.rows,
    {
        self.rows
    }

    pub fn cols(&self) -> (r: usize)
        ensures
            r == self@.cols,
    {
        self.cols
    }

    /// Read the cell at `p`.
    pub fn at(&self, p: Position) -> (c: Cell)
        requires
            self@.wf(),
            p.row < self@.rows,
            p.col < self@.cols,
        ensures
            c == self@.at(p.row as int, p.col as int),
    {
        let len = self.data.len();
        proof {
            assert(p.row * self@.cols + p.col < self@.rows * self@.cols) by (nonlinear_arith)
                requires
                    p.row < self@.rows,
                    p.col < self@.cols,
            ;
        }
        self.data[p.row * self.cols + p.col]
    }

    /// Overwrite the cell at `p`.
    pub fn set(&mut self, p: Position, c: Cell)
        requires
            old(self)@.wf(),
            p.row < old(self)@.rows,
            p.col < old(self)@.cols,
        ensures
            final(self)@.rows == old(self)@.rows,
            final(self)@.cols == old(self)@.cols,
            final(self)@.cells == old(self)@.cells.update(
                p.row * old(self)@.cols + p.col,
                c,
            ),
            final(self)@.wf(),
    {
        let len = self.data.len();
        proof {
            assert(p.row * self@.cols + p.col < self@.rows * self@.cols) by (nonlinear_arith)
                requires
                    p.row < self@.rows,
                    p.col < self@.cols,
            ;
        }
        let idx = p.row * self.cols + p.col;
        self.data.set(idx, c);
    }
}

/// Contents of one board square: empty, or a piece of one player.
#[derive(Clone, Copy, PartialEq, Eq, Structural, Debug)]
pub enum Cell {
    Empty,
    Piece(Player),
}

/// A (row, column) coordinate on a board.
#[derive(Clone, Copy, PartialEq, Eq, Structural, Debug)]
pub struct Position {
    pub row: usize,
    pub col: usize,
}

} // verus!
