use gametree::games::board::{Board, Cell, Position};
use gametree::games::common::{generate_line, on_board, tuple_to_pos};
use gametree::games::connect4::Connect4;
use gametree::games::tictactoe::TicTacToe;
use gametree::games::{GameResult, GameState, Player};

fn place(game: TicTacToe, row: usize, col: usize) -> TicTacToe {
    let moves = game.get_valid_moves();
    let idx = moves
        .iter()
        .position(|m| m.position.row == row && m.position.col == col)
        .expect("square not open");
    game.do_move(moves[idx])
}

fn drop_col(game: Connect4, col: usize) -> Connect4 {
    let moves = game.get_valid_moves();
    let idx = moves
        .iter()
        .position(|m| m.position.col == col)
        .expect("column not open");
    game.do_move(moves[idx])
}

#[test]
fn board_starts_empty() {
    let b: Board = Board::new(3, 4);
    assert_eq!(b.rows(), 3);
    assert_eq!(b.cols(), 4);
    for row in 0..3 {
        for col in 0..4 {
            assert_eq!(b.at(Position { row, col }), Cell::Empty);
        }
    }
}

#[test]
fn board_set_then_read() {
    let mut b: Board = Board::new(2, 2);
    b.set(Position { row: 1, col: 0 }, Cell::Piece(Player::new(2)));
    assert_eq!(b.at(Position { row: 1, col: 0 }), Cell::Piece(Player::new(2)));
    assert_eq!(b.at(Position { row: 0, col: 0 }), Cell::Empty);
}

#[test]
fn on_board_bounds() {
    assert!(on_board((0, 0), (3, 3)));
    assert!(on_board((2, 2), (3, 3)));
    assert!(!on_board((3, 0), (3, 3)));
    assert!(!on_board((0, 3), (3, 3)));
    assert!(!on_board((-1, 0), (3, 3)));
    assert!(!on_board((0, -1), (3, 3)));
}

#[test]
fn tuple_to_pos_exact() {
    let p = tuple_to_pos((2, 5));
    assert_eq!(p.row, 2);
    assert_eq!(p.col, 5);
}

#[test]
fn generate_line_row_through_center() {
    let line = generate_line(Position { row: 1, col: 1 }, (0, 1), (3, 3));
    let expected = vec![
        Position { row: 1, col: 2 },
        Position { row: 1, col: 1 },
        Position { row: 1, col: 0 },
    ];
    assert_eq!(line, expected);
}

#[test]
fn generate_line_diagonal_corner() {
    let line = generate_line(Position { row: 0, col: 0 }, (-1, -1), (3, 3));
    let expected = vec![
        Position { row: 0, col: 0 },
        Position { row: 1, col: 1 },
        Position { row: 2, col: 2 },
    ];
    assert_eq!(line, expected);
}

#[test]
fn fresh_tictactoe_all_squares_open() {
    let g = TicTacToe::new(3, 3, 3);
    assert_eq!(g.check_win(), GameResult::InProgress);
    let moves = g.get_valid_moves();
    assert_eq!(moves.len(), 9);
    assert!(moves.iter().all(|m| m.player == Player::new(1)));
    assert_eq!(g.last_move(), None);
}

#[test]
fn players_alternate() {
    let g = TicTacToe::new(3, 3, 3);
    assert_eq!(g.player_to_move(), Player::new(1));
    let g = place(g, 0, 0);
    assert_eq!(g.player_to_move(), Player::new(2));
    let g = place(g, 1, 1);
    assert_eq!(g.player_to_move(), Player::new(1));
    assert_eq!(g.last_move().unwrap().player, Player::new(2));
}

#[test]
fn tictactoe_row_win() {
    let mut g = TicTacToe::new(3, 3, 3);
    g = place(g, 0, 0);
    g = place(g, 1, 0);
    g = place(g, 0, 1);
    g = place(g, 1, 1);
    assert_eq!(g.check_win(), GameResult::InProgress);
    g = place(g, 0, 2);
    assert_eq!(g.check_win(), GameResult::Win(Player::new(1)));
    assert!(g.get_valid_moves().is_empty());
}

#[test]
fn tictactoe_column_win_second_player() {
    let mut g = TicTacToe::new(3, 3, 3);
    g = place(g, 0, 0);
    g = place(g, 0, 2);
    g = place(g, 0, 1);
    g = place(g, 1, 2);
    g = place(g, 1, 0);
    g = place(g, 2, 2);
    assert_eq!(g.check_win(), GameResult::Win(Player::new(2)));
}

#[test]
fn tictactoe_diagonal_win() {
    let mut g = TicTacToe::new(3, 3, 3);
    g = place(g, 0, 0);
    g = place(g, 0, 1);
    g = place(g, 1, 1);
    g = place(g, 0, 2);
    g = place(g, 2, 2);
    assert_eq!(g.check_win(), GameResult::Win(Player::new(1)));
}

#[test]
fn tictactoe_anti_diagonal_win() {
    let mut g = TicTacToe::new(3, 3, 3);
    g = place(g, 0, 2);
    g = place(g, 0, 1);
    g = place(g, 1, 1);
    g = place(g, 0, 0);
    g = place(g, 2, 0);
    assert_eq!(g.check_win(), GameResult::Win(Player::new(1)));
}

#[test]
fn full_board_no_winner_is_draw() {
    // X O X / X O O / O X X : no run of three anywhere
    let mut g = TicTacToe::new(3, 3, 3);
    g = place(g, 0, 0); // X
    g = place(g, 0, 1); // O
    g = place(g, 0, 2); // X
    g = place(g, 1, 1); // O
    g = place(g, 1, 0); // X
    g = place(g, 1, 2); // O
    g = place(g, 2, 1); // X
    g = place(g, 2, 0); // O
    g = place(g, 2, 2); // X
    assert_eq!(g.check_win(), GameResult::Draw);
    assert!(g.get_valid_moves().is_empty());
}

#[test]
fn terminal_consistency_along_a_game() {
    let mut g = TicTacToe::new(3, 3, 3);
    let script = [(0, 0), (1, 1), (0, 1), (2, 2), (0, 2)];
    for (row, col) in script {
        assert_eq!(
            g.get_valid_moves().is_empty(),
            g.check_win() != GameResult::InProgress
        );
        g = place(g, row, col);
    }
    assert_eq!(
        g.get_valid_moves().is_empty(),
        g.check_win() != GameResult::InProgress
    );
    assert_eq!(g.check_win(), GameResult::Win(Player::new(1)));
}

#[test]
fn clone_round_trip() {
    let mut a = TicTacToe::new(3, 3, 3);
    a = place(a, 0, 0);
    a = place(a, 1, 1);
    let mut b = a.clone_state();
    let script = [(0, 1), (2, 2), (0, 2)];
    for (row, col) in script {
        a = place(a, row, col);
        b = place(b, row, col);
    }
    assert_eq!(a.check_win(), b.check_win());
    assert_eq!(a.get_valid_moves(), b.get_valid_moves());
    assert_eq!(a.last_move(), b.last_move());
}

#[test]
fn clone_is_independent() {
    let a = TicTacToe::new(3, 3, 3);
    let b = a.clone_state();
    let b2 = place(b, 0, 0);
    // mutating the clone leaves the original untouched
    assert_eq!(a.get_valid_moves().len(), 9);
    assert_eq!(b2.get_valid_moves().len(), 8);
}

#[test]
fn connect4_gravity_stacks_pieces() {
    let g = Connect4::new(6, 7, 4);
    assert_eq!(g.check_win(), GameResult::InProgress);
    let moves = g.get_valid_moves();
    assert_eq!(moves.len(), 7);
    assert!(moves.iter().all(|m| m.position.row == 5));
    let g = drop_col(g, 3);
    let moves = g.get_valid_moves();
    let over_three = moves.iter().find(|m| m.position.col == 3).unwrap();
    assert_eq!(over_three.position.row, 4);
}

#[test]
fn connect4_column_win() {
    let mut g = Connect4::new(6, 7, 4);
    for _ in 0..3 {
        g = drop_col(g, 0); // player 1
        g = drop_col(g, 1); // player 2
    }
    assert_eq!(g.check_win(), GameResult::InProgress);
    g = drop_col(g, 0);
    assert_eq!(g.check_win(), GameResult::Win(Player::new(1)));
    assert!(g.get_valid_moves().is_empty());
}

#[test]
fn connect4_row_win() {
    let mut g = Connect4::new(6, 7, 4);
    for col in 0..3 {
        g = drop_col(g, col); // player 1 builds a row
        g = drop_col(g, col); // player 2 stacks on top
    }
    g = drop_col(g, 3);
    assert_eq!(g.check_win(), GameResult::Win(Player::new(1)));
}

#[test]
fn connect4_diagonal_win() {
    let mut g = Connect4::new(6, 7, 4);
    // stairs: player 1 lands at heights 0,1,2,3 in columns 0..=3
    g = drop_col(g, 0); // p1 (5,0)
    g = drop_col(g, 1); // p2 (5,1)
    g = drop_col(g, 1); // p1 (4,1)
    g = drop_col(g, 2); // p2 (5,2)
    g = drop_col(g, 3); // p1 (5,3)
    g = drop_col(g, 2); // p2 (4,2)
    g = drop_col(g, 2); // p1 (3,2)
    g = drop_col(g, 3); // p2 (4,3)
    g = drop_col(g, 4); // p1 (5,4)
    g = drop_col(g, 3); // p2 (3,3)
    g = drop_col(g, 3); // p1 (2,3): diagonal (5,0),(4,1),(3,2),(2,3)
    assert_eq!(g.check_win(), GameResult::Win(Player::new(1)));
}

#[test]
fn connect4_full_column_closes() {
    let mut g = Connect4::new(2, 2, 2);
    g = drop_col(g, 0); // p1 (1,0)
    g = drop_col(g, 0); // p2 (0,0): column 0 is now closed
    let moves = g.get_valid_moves();
    assert!(moves.iter().all(|m| m.position.col == 1));
}
