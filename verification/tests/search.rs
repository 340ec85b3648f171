use gametree::games::tictactoe::TicTacToe;
use gametree::games::{benchmark_players, play, GameResult, GameState, Player};
use gametree::players::mcts::arena_vec::ArenaVec;
use gametree::players::mcts::ucb::{isqrt64, ln_fix, DEFAULT_EXPLORATION, UCB_FINITE_BOUND, UCB_INF};
use gametree::players::mcts::{ArenaTree, MCTSPlayer};
use gametree::players::human::HumanPlayer;
use gametree::players::minimax::{minimax, MinimaxPlayer};
use gametree::players::random::RandomPlayer;
use gametree::players::GamePlayer;

fn place(game: TicTacToe, row: usize, col: usize) -> TicTacToe {
    let moves = game.get_valid_moves();
    let idx = moves
        .iter()
        .position(|m| m.position.row == row && m.position.col == col)
        .expect("square not open");
    game.do_move(moves[idx])
}

/// One move from a win for player 1: (0, 2) completes the top row, and it
/// is the first open square.
fn one_move_from_win() -> TicTacToe {
    let mut g = TicTacToe::new(3, 3, 3);
    g = place(g, 0, 0);
    g = place(g, 1, 1);
    g = place(g, 0, 1);
    g = place(g, 2, 2);
    g
}

#[test]
fn arena_vec_capacity_hint_respected() {
    let mut a: ArenaVec<u32> = ArenaVec::new(5);
    assert_eq!(a.data().len(), 5);
    let cap_before = a.data().capacity();
    let mut refs = Vec::new();
    for v in 0..5u32 {
        refs.push(a.insert(v));
    }
    // fewer insertions than the hint never grow the store
    assert_eq!(a.data().len(), 5);
    assert_eq!(a.data().capacity(), cap_before);
    for (v, r) in refs.iter().enumerate() {
        assert_eq!(*a.get(r), v as u32);
    }
    // beyond the hint the store still grows and succeeds
    let extra = a.insert(99);
    assert_eq!(a.data().len(), 6);
    assert_eq!(*a.get(&extra), 99);
}

#[test]
fn arena_vec_get_mut_writes_through() {
    let mut a: ArenaVec<u32> = ArenaVec::new(2);
    let r = a.insert(7);
    *a.get_mut(&r) = 8;
    assert_eq!(*a.get(&r), 8);
}

#[test]
fn arena_tree_insert_links_parent_and_child() {
    let g = TicTacToe::new(3, 3, 3);
    let mut tree: ArenaTree<TicTacToe> = ArenaTree::new(g, 4);
    let root = tree.root_ref();
    let moves = tree.get(&root).data.get_valid_moves();
    let child_state = tree.get(&root).data.clone_state().do_move(moves[0]);
    let child = tree.insert(child_state, &root);
    assert_eq!(tree.children_of(&root).len(), 1);
    assert_eq!(tree.children_of(&root)[0].0, child.0);
    assert_eq!(tree.get(&child).parent.unwrap().0, root.0);
    assert_eq!(tree.get(&child).num_plays, 0);
    assert_eq!(tree.get(&child).score, 0);
    assert!(!tree.get(&child).expanded);
    assert!(tree.children_of(&child).is_empty());
}

#[test]
fn arena_tree_grows_past_capacity_hint() {
    let g = TicTacToe::new(3, 3, 3);
    let mut tree: ArenaTree<TicTacToe> = ArenaTree::new(g, 2);
    let root = tree.root_ref();
    for _ in 0..4 {
        let moves = tree.get(&root).data.get_valid_moves();
        let child_state = tree.get(&root).data.clone_state().do_move(moves[0]);
        tree.insert(child_state, &root);
    }
    assert_eq!(tree.children_of(&root).len(), 4);
}

#[test]
fn terminal_backprop_counts_each_pass_once() {
    let g = TicTacToe::new(3, 3, 3);
    let mut tree: ArenaTree<TicTacToe> = ArenaTree::new(g, 4);
    let root = tree.root_ref();
    tree.backprop_result(&root, GameResult::Draw);
    assert_eq!(tree.root().num_plays, 1);
    assert_eq!(tree.root().score, 1);
    // a second identical pass again adds exactly one visit
    tree.backprop_result(&root, GameResult::Draw);
    assert_eq!(tree.root().num_plays, 2);
    assert_eq!(tree.root().score, 2);
}

#[test]
fn backprop_walks_leaf_to_root() {
    let g = TicTacToe::new(3, 3, 3);
    let mut tree: ArenaTree<TicTacToe> = ArenaTree::new(g, 4);
    let root = tree.root_ref();
    let moves = tree.get(&root).data.get_valid_moves();
    let child_state = tree.get(&root).data.clone_state().do_move(moves[0]);
    let child = tree.insert(child_state, &root);
    tree.backprop_result(&child, GameResult::Win(Player::new(1)));
    // both path nodes gained the visit; rewards follow the player to move:
    // at the child player 2 moves next, so player 1's win pays the child in
    // full, while at the root player 1 itself moves, so the root gets none
    assert_eq!(tree.get(&child).num_plays, 1);
    assert_eq!(tree.get(&child).score, 2);
    assert_eq!(tree.root().num_plays, 1);
    assert_eq!(tree.root().score, 0);
}

#[test]
fn ucb_prefers_unvisited_nodes() {
    let g = TicTacToe::new(3, 3, 3);
    let mut tree: ArenaTree<TicTacToe> = ArenaTree::new(g, 8);
    let root = tree.root_ref();
    let moves = tree.get(&root).data.get_valid_moves();
    let s1 = tree.get(&root).data.clone_state().do_move(moves[0]);
    let c1 = tree.insert(s1, &root);
    let s2 = tree.get(&root).data.clone_state().do_move(moves[1]);
    let c2 = tree.insert(s2, &root);
    assert_eq!(tree.get_ucb_value(&c1, DEFAULT_EXPLORATION), UCB_INF);
    tree.backprop_result(&c1, GameResult::Win(Player::new(1)));
    // the visited child scores finite, the untouched one keeps the top rank
    assert!(tree.get_ucb_value(&c1, DEFAULT_EXPLORATION) < UCB_FINITE_BOUND);
    assert_eq!(tree.get_ucb_value(&c2, DEFAULT_EXPLORATION), UCB_INF);
    let best = tree.select_best_child(&root, DEFAULT_EXPLORATION);
    assert_eq!(best.0, c2.0);
}

#[test]
fn best_root_child_ranks_by_average() {
    let g = TicTacToe::new(3, 3, 3);
    let mut tree: ArenaTree<TicTacToe> = ArenaTree::new(g, 8);
    let root = tree.root_ref();
    let moves = tree.get(&root).data.get_valid_moves();
    let s1 = tree.get(&root).data.clone_state().do_move(moves[0]);
    let c1 = tree.insert(s1, &root);
    let s2 = tree.get(&root).data.clone_state().do_move(moves[1]);
    let c2 = tree.insert(s2, &root);
    // c1: one win in two visits (average 1/2); c2: one win in one visit
    // (average 1); a visited child also beats the unvisited c3
    tree.backprop_result(&c1, GameResult::Win(Player::new(1)));
    tree.backprop_result(&c1, GameResult::Win(Player::new(2)));
    tree.backprop_result(&c2, GameResult::Win(Player::new(1)));
    let s3 = tree.get(&root).data.clone_state().do_move(moves[2]);
    let _c3 = tree.insert(s3, &root);
    let best = tree.best_root_child();
    assert_eq!(best.0, c2.0);
}

#[test]
fn ucb_exact_value_single_visit() {
    let g = TicTacToe::new(3, 3, 3);
    let mut tree: ArenaTree<TicTacToe> = ArenaTree::new(g, 4);
    let root = tree.root_ref();
    let moves = tree.get(&root).data.get_valid_moves();
    let s1 = tree.get(&root).data.clone_state().do_move(moves[0]);
    let c1 = tree.insert(s1, &root);
    tree.backprop_result(&c1, GameResult::Win(Player::new(1)));
    // score 2 half-points over 1 visit with 1 parent visit: the average is
    // one full point (65536 in Q16) and ln(1) = 0 kills the exploration
    // term entirely
    assert_eq!(tree.get_ucb_value(&c1, DEFAULT_EXPLORATION), 65536);
}

#[test]
fn ucb_exact_value_with_exploration_term() {
    let g = TicTacToe::new(3, 3, 3);
    let mut tree: ArenaTree<TicTacToe> = ArenaTree::new(g, 8);
    let root = tree.root_ref();
    let moves = tree.get(&root).data.get_valid_moves();
    let s1 = tree.get(&root).data.clone_state().do_move(moves[0]);
    let c1 = tree.insert(s1, &root);
    // the winner is the player to move at the child, so the child's own
    // reward is zero; a second pass through the root alone brings the
    // parent count to two
    tree.backprop_result(&c1, GameResult::Win(Player::new(2)));
    tree.backprop_result(&root, GameResult::Win(Player::new(2)));
    assert_eq!(tree.get(&c1).num_plays, 1);
    assert_eq!(tree.get(&c1).score, 0);
    assert_eq!(tree.root().num_plays, 2);
    // score 0/1 plus sqrt(2)/2 * sqrt(ln 2 / 1), all in Q16: 38581
    assert_eq!(tree.get_ucb_value(&c1, DEFAULT_EXPLORATION), 38581);
}

#[test]
fn fixed_point_helpers_exact_values() {
    assert_eq!(isqrt64(0), 0);
    assert_eq!(isqrt64(15), 3);
    assert_eq!(isqrt64(16), 4);
    assert_eq!(isqrt64(17), 4);
    assert_eq!(isqrt64(u64::MAX), 4294967295);
    assert_eq!(ln_fix(1), 0);
    assert_eq!(ln_fix(2), 45426);
    assert_eq!(ln_fix(4), 90852);
    assert_eq!(ln_fix(1 << 32), 32 * 45426);
    let l3 = ln_fix(3);
    assert!(ln_fix(2) < l3 && l3 < ln_fix(4));
}

#[test]
fn random_player_moves_are_legal() {
    let mut p = RandomPlayer::from_seed(7);
    let g = one_move_from_win();
    for _ in 0..50 {
        let m = p.choose_move(&g);
        assert!(g.get_valid_moves().contains(&m));
    }
}

#[test]
fn random_player_single_choice() {
    let mut g = TicTacToe::new(3, 3, 3);
    let script = [(0, 0), (0, 1), (1, 1), (1, 0), (2, 0), (0, 2), (1, 2), (2, 2)];
    for (row, col) in script {
        g = place(g, row, col);
    }
    assert_eq!(g.check_win(), GameResult::InProgress);
    let only = g.get_valid_moves();
    assert_eq!(only.len(), 1);
    let mut p = RandomPlayer::from_seed(3);
    assert_eq!(p.choose_move(&g), only[0]);
}

#[test]
fn mcts_takes_the_immediate_win() {
    for seed in [1u64, 7, 42, 1234, 98765] {
        let g = one_move_from_win();
        let mut p = MCTSPlayer::from_seed(100, seed);
        let m = p.choose_move(&g);
        assert_eq!(m.position.row, 0);
        assert_eq!(m.position.col, 2);
    }
}

#[test]
fn mcts_custom_exploration_constant() {
    // a full-point exploration constant (1.0 in Q16) still finds the
    // immediate win, and so does pure exploitation
    for c in [0u64, 65536] {
        let g = one_move_from_win();
        let mut p = MCTSPlayer::with_exploration(100, 8, c);
        let m = p.choose_move(&g);
        assert_eq!(m.position.row, 0);
        assert_eq!(m.position.col, 2);
    }
}

#[test]
fn mcts_move_is_legal_on_tiny_budget() {
    for iterations in [0usize, 1, 2, 5] {
        let g = TicTacToe::new(3, 3, 3);
        let mut p = MCTSPlayer::from_seed(iterations, 11);
        let m = p.choose_move(&g);
        assert!(g.get_valid_moves().contains(&m));
    }
}

#[test]
fn mcts_never_loses_to_perfect_play() {
    // Tic-Tac-Toe is a draw under optimal play: a well-searched first
    // player must at least draw against exhaustive minimax, whatever the
    // rollout seed
    for seed in [5u64, 77] {
        let g = TicTacToe::new(3, 3, 3);
        let mut p1 = MCTSPlayer::from_seed(2000, seed);
        let mut p2 = MinimaxPlayer::new(None);
        let result = play(g, &mut p1, &mut p2);
        assert_ne!(result, GameResult::Win(Player::new(2)));
    }
}

#[test]
fn mcts_large_budget_never_loses_to_perfect_play() {
    let g = TicTacToe::new(3, 3, 3);
    let mut p1 = MCTSPlayer::from_seed(5000, 314159);
    let mut p2 = MinimaxPlayer::new(None);
    let result = play(g, &mut p1, &mut p2);
    assert_ne!(result, GameResult::Win(Player::new(2)));
}

#[test]
fn mcts_takes_a_win_that_is_not_the_first_move() {
    // player 1 threatens the bottom row; the winning square (2, 1) sits in
    // the middle of the open list
    for seed in [3u64, 21] {
        let mut g = TicTacToe::new(3, 3, 3);
        g = place(g, 2, 0);
        g = place(g, 0, 0);
        g = place(g, 2, 2);
        g = place(g, 0, 1);
        let mut p = MCTSPlayer::from_seed(400, seed);
        let m = p.choose_move(&g);
        assert_eq!(m.position.row, 2);
        assert_eq!(m.position.col, 1);
    }
}

#[test]
fn minimax_value_of_tictactoe_is_draw() {
    // from an empty board (no move made yet), optimal play ends in a draw;
    // the value is measured for the player who just moved, so 0
    let g = TicTacToe::new(3, 3, 3);
    assert_eq!(minimax(&g), 0);
}

#[test]
fn minimax_sees_a_forced_win() {
    let g = one_move_from_win();
    let mut p = MinimaxPlayer::new(None);
    let m = p.choose_move(&g);
    assert_eq!(m.position.row, 0);
    assert_eq!(m.position.col, 2);
}

#[test]
fn human_pick_maps_indices_to_moves() {
    let g = one_move_from_win();
    let human = HumanPlayer;
    let moves = g.get_valid_moves();
    assert_eq!(human.pick(&g, 0), Some(moves[0]));
    assert_eq!(human.pick(&g, moves.len() - 1), Some(moves[moves.len() - 1]));
    assert_eq!(human.pick(&g, moves.len()), None);
}

#[test]
fn play_runs_to_completion() {
    let g = TicTacToe::new(3, 3, 3);
    let mut a = RandomPlayer::from_seed(1);
    let mut b = RandomPlayer::from_seed(2);
    let result = play(g, &mut a, &mut b);
    assert_ne!(result, GameResult::InProgress);
}

#[test]
fn benchmark_tally_accounts_for_every_game() {
    let g = TicTacToe::new(3, 3, 3);
    let mut a = RandomPlayer::from_seed(10);
    let mut b = RandomPlayer::from_seed(20);
    let (p1_wins, draws, p2_wins) = benchmark_players(&g, &mut a, &mut b, 25);
    assert_eq!(p1_wins + draws + p2_wins, 25);
}
