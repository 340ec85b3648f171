//! Straight lines of board positions: walking a direction from a starting
//! square to both edges of the board, and looking for a run of one player's
//! pieces along such a line. Both games detect wins with this machinery.

use vstd::prelude::*;

use crate::games::board::{Board, BoardView, Cell, Position};
use crate::games::Player;

verus! {

/// The point reached from `pos` after `t` steps of `dir` (negative `t` walks
/// backwards).
pub open spec fn pt(pos: Position, dir: (int, int), t: int) -> (int, int) {
    (pos.row + t * dir.0, pos.col + t * dir.1)
}

/// Whether an (unbounded) point lies on a board of the given dimensions.
pub open spec fn pt_on(p: (int, int), size: (usize, usize)) -> bool {
    0 <= p.0 < size.0 as int && 0 <= p.1 < size.1 as int
}

/// A position names the same square as an unbounded point.
pub open spec fn pos_at(p: Position, q: (int, int)) -> bool {
    p.row as int == q.0 && p.col as int == q.1
}

/// The point `q` is on the board and holds a piece of `player`.
pub open spec fn piece_at_pt(bv: BoardView, q: (int, int), player: Player) -> bool {
    &&& 0 <= q.0 < bv.rows as int
    &&& 0 <= q.1 < bv.cols as int
    &&& bv.at(q.0, q.1) == Cell::Piece(player)
}

/// The position `p` is on the board and holds a piece of `player`.
pub open spec fn pos_piece(bv: BoardView, p: Position, player: Player) -> bool {
    &&& (p.row as int) < bv.rows as int
    &&& (p.col as int) < bv.cols as int
    &&& bv.at(p.row as int, p.col as int) == Cell::Piece(player)
}

/// `k` consecutive steps of `dir`, starting `t0` steps away from `pos`, all
/// land on the board and all hold pieces of `player`.
pub open spec fn t_window(
    bv: BoardView,
    pos: Position,
    dir: (int, int),
    player: Player,
    k: nat,
    t0: int,
) -> bool {
    forall|t: int| t0 <= t < t0 + k ==> piece_at_pt(bv, #[trigger] pt(pos, dir, t), player)
}

/// `player` has `k` in a row somewhere on the line through `pos` along `dir`.
pub open spec fn wins_dir(
    bv: BoardView,
    pos: Position,
    dir: (int, int),
    player: Player,
    k: nat,
) -> bool {
    exists|t0: int| t_window(bv, pos, dir, player, k, t0)
}

/// `player` has `k` in a row on one of the four line classes (the two
/// diagonals, the column, and the row) through `pos`.
pub open spec fn wins(bv: BoardView, pos: Position, player: Player, k: nat) -> bool {
    ||| wins_dir(bv, pos, (-1, -1), player, k)
    ||| wins_dir(bv, pos, (-1, 0), player, k)
    ||| wins_dir(bv, pos, (-1, 1), player, k)
    ||| wins_dir(bv, pos, (0, 1), player, k)
}

/// The `k` line entries starting at index `i0` all hold pieces of `player`.
pub open spec fn run_at(
    bv: BoardView,
    line: Seq<Position>,
    player: Player,
    k: nat,
    i0: int,
) -> bool {
    forall|i: int| i0 <= i < i0 + k ==> pos_piece(bv, #[trigger] line[i], player)
}

/// Some `k` consecutive line entries all hold pieces of `player`.
pub open spec fn has_run(bv: BoardView, line: Seq<Position>, player: Player, k: nat) -> bool {
    exists|i0: int| 0 <= i0 && i0 + k <= line.len() && run_at(bv, line, player, k, i0)
}

/// Shape of the output of [`generate_line`]: the on-board points of the line
/// through `pos` along `dir`, from `a` steps forward down to `b` steps
/// backward, with both ends flush against the board edge.
pub open spec fn is_line_seq(
    s: Seq<Position>,
    pos: Position,
    dir: (int, int),
    size: (usize, usize),
    a: int,
    b: int,
) -> bool {
    &&& 0 <= a
    &&& 0 <= b
    &&& s.len() == a + b + 1
    &&& forall|i: int|
        0 <= i < s.len() ==> pos_at(#[trigger] s[i], pt(pos, dir, a - i)) && pt_on(
            pt(pos, dir, a - i),
            size,
        )
    &&& !pt_on(pt(pos, dir, a + 1), size)
    &&& !pt_on(pt(pos, dir, -b - 1), size)
}

/// Number of further steps a walk along `dir` can take before leaving the
/// board; used to show that the walks in [`generate_line`] stop.
pub open spec fn walk_fuel(cur: (int, int), dir: (int, int), size: (usize, usize)) -> int {
    if !pt_on(cur, size) {
        0
    } else if dir.0 > 0 {
        size.0 as int - cur.0
    } else if dir.0 < 0 {
        cur.0 + 1
    } else if dir.1 > 0 {
        size.1 as int - cur.1
    } else {
        cur.1 + 1
    }
}

/// Whether a signed coordinate pair lies on a board of the given dimensions.
pub fn on_board(pos: (i128, i128), size: (usize, usize)) -> (r: bool)
    ensures
        r == pt_on((pos.0 as int, pos.1 as int), size),
{
    pos.0 >= 0 && pos.1 >= 0 && pos.0 < size.0 as i128 && pos.1 < size.1 as i128
}

/// Convert a signed coordinate pair, known to be in range, into a position.
pub fn tuple_to_pos(tuple: (i128, i128)) -> (p: Position)
    requires
        0 <= tuple.0 <= usize::MAX,
        0 <= tuple.1 <= usize::MAX,
    ensures
        p.row as int == tuple.0 as int,
        p.col as int == tuple.1 as int,
{
    Position { row: tuple.0 as usize, col: tuple.1 as usize }
}

/// All on-board positions of the line through `pos` along `dir`, ordered from
/// the farthest point forward to the farthest point backward. An off-board
/// `pos` yields no positions. A zero `dir` is excluded: the walk along it
/// would never reach the board edge.
pub fn generate_line(pos: Position, dir: (i128, i128), size: (usize, usize)) -> (r: Vec<
    Position,
>)
    requires
        !(dir.0 == 0 && dir.1 == 0),
        -0x1_0000_0000_0000_0000 <= dir.0 <= 0x1_0000_0000_0000_0000,
        -0x1_0000_0000_0000_0000 <= dir.1 <= 0x1_0000_0000_0000_0000,
    ensures
        !pt_on((pos.row as int, pos.col as int), size) ==> r@.len() == 0,
        pt_on((pos.row as int, pos.col as int), size) ==> exists|a: int, b: int|
            is_line_seq(r@, pos, (dir.0 as int, dir.1 as int), size, a, b),
{
    let ghost sdir: (int, int) = (dir.0 as int, dir.1 as int);
    let mut v: Vec<Position> = Vec::new();
    let start: (i128, i128) = (pos.row as i128, pos.col as i128);
    if !on_board(start, size) {
        return v;
    }
    let mut cur = start;
    let ghost mut k: int = 0;
    while on_board(cur, size)
        invariant
            !(dir.0 == 0 && dir.1 == 0),
            -0x1_0000_0000_0000_0000 <= dir.0 <= 0x1_0000_0000_0000_0000,
            -0x1_0000_0000_0000_0000 <= dir.1 <= 0x1_0000_0000_0000_0000,
            sdir == (dir.0 as int, dir.1 as int),
            k >= 0,
            v@.len() == k,
            cur.0 as int == pt(pos, sdir, k).0,
            cur.1 as int == pt(pos, sdir, k).1,
            -0x4_0000_0000_0000_0000 <= cur.0 <= 0x4_0000_0000_0000_0000,
            -0x4_0000_0000_0000_0000 <= cur.1 <= 0x4_0000_0000_0000_0000,
            forall|i: int|
                0 <= i < k ==> pos_at(#[trigger] v@[i], pt(pos, sdir, k - 1 - i)) && pt_on(
                    pt(pos, sdir, k - 1 - i),
                    size,
                ),
        decreases walk_fuel((cur.0 as int, cur.1 as int), sdir, size),
    {
        v.insert(0, tuple_to_pos(cur));
        proof {
            assert((k + 1) * sdir.0 == k * sdir.0 + sdir.0) by (nonlinear_arith);
            assert((k + 1) * sdir.1 == k * sdir.1 + sdir.1) by (nonlinear_arith);
        }
        cur.0 = cur.0 + dir.0;
        cur.1 = cur.1 + dir.1;
        proof {
            k = k + 1;
        }
    }
    let ghost a: int = k - 1;
    let mut cur2: (i128, i128) = (start.0 - dir.0, start.1 - dir.1);
    let ghost mut m: int = 1;
    proof {
        assert(a >= 0);
        assert((-1) * sdir.0 == -sdir.0) by (nonlinear_arith);
        assert((-1) * sdir.1 == -sdir.1) by (nonlinear_arith);
    }
    while on_board(cur2, size)
        invariant
            !(dir.0 == 0 && dir.1 == 0),
            -0x1_0000_0000_0000_0000 <= dir.0 <= 0x1_0000_0000_0000_0000,
            -0x1_0000_0000_0000_0000 <= dir.1 <= 0x1_0000_0000_0000_0000,
            sdir == (dir.0 as int, dir.1 as int),
            m >= 1,
            a >= 0,
            v@.len() == a + m,
            cur2.0 as int == pt(pos, sdir, -m).0,
            cur2.1 as int == pt(pos, sdir, -m).1,
            -0x4_0000_0000_0000_0000 <= cur2.0 <= 0x4_0000_0000_0000_0000,
            -0x4_0000_0000_0000_0000 <= cur2.1 <= 0x4_0000_0000_0000_0000,
            forall|i: int|
                0 <= i < v@.len() ==> pos_at(#[trigger] v@[i], pt(pos, sdir, a - i)) && pt_on(
                    pt(pos, sdir, a - i),
                    size,
                ),
            !pt_on(pt(pos, sdir, a + 1), size),
        decreases walk_fuel((cur2.0 as int, cur2.1 as int), (-sdir.0, -sdir.1), size),
    {
        v.push(tuple_to_pos(cur2));
        proof {
            assert((-(m + 1)) * sdir.0 == (-m) * sdir.0 - sdir.0) by (nonlinear_arith);
            assert((-(m + 1)) * sdir.1 == (-m) * sdir.1 - sdir.1) by (nonlinear_arith);
        }
        cur2.0 = cur2.0 - dir.0;
        cur2.1 = cur2.1 - dir.1;
        proof {
            m = m + 1;
        }
    }
    let ghost b: int = m - 1;
    proof {
        assert(is_line_seq(v@, pos, sdir, size, a, b));
    }
    v
}

/// Scan a line of positions for `k` consecutive pieces of `player`.
pub fn line_has_run(board: &Board, line: &Vec<Position>, player: Player, k: usize) -> (r: bool)
    requires
        board@.wf(),
        k >= 1,
        forall|i: int|
            0 <= i < line@.len() ==> (#[trigger] line@[i]).row < board@.rows && line@[i].col
                < board@.cols,
    ensures
        r == has_run(board@, line@, player, k as nat),
{
    let mut consecutive: usize = 0;
    let mut i: usize = 0;
    let n = line.len();
    while i < n
        invariant
            board@.wf(),
            k >= 1,
            n == line@.len(),
            forall|j: int|
                0 <= j < line@.len() ==> (#[trigger] line@[j]).row < board@.rows && line@[j].col
                    < board@.cols,
            i <= n,
            consecutive <= i,
            consecutive < k,
            forall|j: int|
                i - consecutive <= j < i ==> pos_piece(board@, #[trigger] line@[j], player),
            i - consecutive - 1 >= 0 ==> !pos_piece(
                board@,
                line@[i as int - consecutive as int - 1],
                player,
            ),
            forall|i0: int|
                0 <= i0 && i0 + k <= i ==> !run_at(board@, line@, player, k as nat, i0),
        decreases n - i,
    {
        let p = line[i];
        let cell = board.at(p);
        if cell == Cell::Piece(player) {
            consecutive += 1;
            if consecutive >= k {
                proof {
                    assert(run_at(board@, line@, player, k as nat, i + 1 - k));
                }
                return true;
            }
            proof {
                let mis = i as int - consecutive as int;
                assert forall|i0: int| 0 <= i0 && i0 + k <= i + 1 implies !run_at(
                    board@,
                    line@,
                    player,
                    k as nat,
                    i0,
                ) by {
                    if i0 + k <= i {
                    } else {
                        // the window ends at i + 1; it reaches back past the
                        // run of matches, to the mismatch at index mis
                        assert(i0 <= mis < i0 + k);
                        assert(!pos_piece(board@, line@[mis], player));
                    }
                }
            }
        } else {
            consecutive = 0;
            proof {
                assert forall|i0: int| 0 <= i0 && i0 + k <= i + 1 implies !run_at(
                    board@,
                    line@,
                    player,
                    k as nat,
                    i0,
                ) by {
                    if i0 + k <= i {
                    } else {
                        assert(i0 <= i < i0 + k);
                        assert(!pos_piece(board@, line@[i as int], player));
                    }
                }
            }
        }
        i += 1;
    }
    false
}

/// Whether `player` has a winning run along one direction's line through
/// `pos`.
pub fn dir_win(board: &Board, pos: Position, player: Player, k: usize, dir: (i128, i128)) -> (r:
    bool)
    requires
        board@.wf(),
        k >= 1,
        pos.row < board@.rows,
        pos.col < board@.cols,
        !(dir.0 == 0 && dir.1 == 0),
        -1 <= dir.0 <= 1,
        -1 <= dir.1 <= 1,
    ensures
        r == wins_dir(board@, pos, (dir.0 as int, dir.1 as int), player, k as nat),
{
    let size = (board.rows(), board.cols());
    let line = generate_line(pos, dir, size);
    let ghost sdir: (int, int) = (dir.0 as int, dir.1 as int);
    proof {
        assert(pt_on((pos.row as int, pos.col as int), size));
    }
    let ghost (a, b): (int, int) = choose|a: int, b: int|
        is_line_seq(line@, pos, sdir, size, a, b);
    proof {
        assert forall|i: int| 0 <= i < line@.len() implies (#[trigger] line@[i]).row < board@.rows
            && line@[i].col < board@.cols by {
            assert(pos_at(line@[i], pt(pos, sdir, a - i)));
        }
    }
    let r = line_has_run(board, &line, player, k);
    proof {
        lemma_run_is_window(board@, line@, pos, sdir, size, a, b, player, k as nat);
    }
    r
}

/// Whether `player` has a winning run through `pos` in any of the four
/// direction classes.
pub fn any_dir_win(board: &Board, pos: Position, player: Player, k: usize) -> (r: bool)
    requires
        board@.wf(),
        k >= 1,
        pos.row < board@.rows,
        pos.col < board@.cols,
    ensures
        r == wins(board@, pos, player, k as nat),
{
    dir_win(board, pos, player, k, (-1, -1)) || dir_win(board, pos, player, k, (-1, 0)) || dir_win(
        board,
        pos,
        player,
        k,
        (-1, 1),
    ) || dir_win(board, pos, player, k, (0, 1))
}

/// On a line, the on-board points form a contiguous range of step counts:
/// any step count between two on-board ones is on board too.
proof fn lemma_pt_between(
    pos: Position,
    dir: (int, int),
    size: (usize, usize),
    t1: int,
    tm: int,
    t2: int,
)
    requires
        pt_on(pt(pos, dir, t1), size),
        pt_on(pt(pos, dir, t2), size),
        t1 <= tm <= t2,
    ensures
        pt_on(pt(pos, dir, tm), size),
{
    assert(pt_on(pt(pos, dir, tm), size)) by (nonlinear_arith)
        requires
            pt_on(pt(pos, dir, t1), size),
            pt_on(pt(pos, dir, t2), size),
            t1 <= tm <= t2,
    ;
}

/// A run of `k` pieces somewhere on the full line through `pos` along `dir`
/// is the same thing as a window of `k` piece-holding steps of `dir` from
/// `pos`: the line sequence covers every on-board step count.
pub proof fn lemma_run_is_window(
    bv: BoardView,
    s: Seq<Position>,
    pos: Position,
    dir: (int, int),
    size: (usize, usize),
    a: int,
    b: int,
    player: Player,
    k: nat,
)
    requires
        is_line_seq(s, pos, dir, size, a, b),
        bv.rows == size.0 as nat,
        bv.cols == size.1 as nat,
        k >= 1,
    ensures
        has_run(bv, s, player, k) <==> wins_dir(bv, pos, dir, player, k),
{
    if has_run(bv, s, player, k) {
        let i0 = choose|i0: int|
            0 <= i0 && i0 + k <= s.len() && run_at(bv, s, player, k, i0);
        let t0 = a - i0 - (k - 1);
        assert forall|t: int| t0 <= t < t0 + k implies piece_at_pt(
            bv,
            #[trigger] pt(pos, dir, t),
            player,
        ) by {
            let i = a - t;
            assert(i0 <= i < i0 + k);
            assert(pos_piece(bv, s[i], player));
            assert(pos_at(s[i], pt(pos, dir, t)));
            assert(pt_on(pt(pos, dir, t), size));
        }
        assert(t_window(bv, pos, dir, player, k, t0));
    }
    if wins_dir(bv, pos, dir, player, k) {
        let t0 = choose|t0: int| t_window(bv, pos, dir, player, k, t0);
        // the window's endpoints lie in [-b, a]: a step count beyond either
        // end would put the flush off-board end point between two on-board
        // points of the line
        assert(piece_at_pt(bv, pt(pos, dir, t0), player));
        assert(piece_at_pt(bv, pt(pos, dir, t0 + k - 1), player));
        // the start point itself is on the board: instantiate the line
        // description at index a, whose step count is zero
        assert(0 <= a < s.len());
        assert(pos_at(s[a], pt(pos, dir, a - a)) && pt_on(pt(pos, dir, a - a), size));
        assert(a - a == 0);
        assert(pt_on(pt(pos, dir, 0), size));
        if t0 + k - 1 > a {
            lemma_pt_between(pos, dir, size, 0, a + 1, t0 + k - 1);
            assert(false);
        }
        if t0 < -b {
            lemma_pt_between(pos, dir, size, t0, -b - 1, 0);
            assert(false);
        }
        let i0 = a - (t0 + k - 1);
        assert forall|i: int| i0 <= i < i0 + k implies pos_piece(bv, #[trigger] s[i], player) by {
            let t = a - i;
            assert(t0 <= t < t0 + k);
            assert(piece_at_pt(bv, pt(pos, dir, t), player));
            assert(pos_at(s[i], pt(pos, dir, t)));
        }
        assert(0 <= i0 && i0 + k <= s.len() && run_at(bv, s, player, k, i0));
    }
}

} // verus!
