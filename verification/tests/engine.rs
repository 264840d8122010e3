use four_in_a_row::board::{default_board, Player, PlayerMove, Winner};
use four_in_a_row::montecarlo::{random_game_simulation, random_playout};
use four_in_a_row::movetree::{
    choose_max_index, default_game_state, default_move_tree, move_tree_with_explore,
};
use four_in_a_row::score::{get_score, isqrt, ln_fix};
use rand::rngs::StdRng;
use rand::SeedableRng;

#[test]
fn fresh_tree_has_an_empty_root() {
    let t = default_move_tree();
    let root = t.root_state();
    assert_eq!(root.turn, Player::Player1);
    assert_eq!(root.playouts, 0);
    assert_eq!(root.wins, 0);
    for c in 0..7 {
        assert!(t.child_state(c).is_none());
    }
    let g = default_game_state();
    assert_eq!(g.turn, Player::Player1);
    assert_eq!(g.playouts, 0);
    assert_eq!(g.wins, 0);
}

#[test]
fn add_playout_reaches_child_and_root() {
    let mut t = default_move_tree();
    let root = t.root_index();
    t.add_playout(root, 3, 1, 1, Player::Player1);
    // the new child starts from the result itself
    let child = t.child_state(3).unwrap();
    assert_eq!(child.turn, Player::Player2);
    assert_eq!(child.playouts, 1);
    // the child's entering move was made by Player1, the winner
    assert_eq!(child.wins, 1);
    // the root counts the playout but not the win: Player2 moved into it
    let root_state = t.root_state();
    assert_eq!(root_state.playouts, 1);
    assert_eq!(root_state.wins, 0);
    // other columns stay unexpanded
    assert!(t.child_state(0).is_none());
    assert!(t.child_state(6).is_none());
}

#[test]
fn win_credit_alternates_by_node() {
    let mut t = default_move_tree();
    let root = t.root_index();
    t.add_playout(root, 2, 1, 1, Player::Player2);
    // Player2 won, but the child's entering move was Player1's
    let child = t.child_state(2).unwrap();
    assert_eq!(child.playouts, 1);
    assert_eq!(child.wins, 0);
    // the root's position is entered by Player2's move one ply up; with the
    // root as the top of the tree its turn is Player1, so Player2's win is
    // credited there
    let root_state = t.root_state();
    assert_eq!(root_state.playouts, 1);
    assert_eq!(root_state.wins, 1);
}

#[test]
fn advance_to_searched_column_keeps_statistics() {
    let mut t = default_move_tree();
    let root = t.root_index();
    t.add_playout(root, 2, 1, 1, Player::Player1);
    t.traverse_root(2);
    let root_state = t.root_state();
    assert_eq!(root_state.turn, Player::Player2);
    assert_eq!(root_state.playouts, 1);
    assert_eq!(root_state.wins, 1);
}

#[test]
fn advance_to_unsearched_column_matches_a_fresh_tree() {
    // rebasing onto a column with no search history gives a root with zero
    // statistics, exactly like a tree built fresh after that move
    let mut t = default_move_tree();
    let root = t.root_index();
    t.add_playout(root, 2, 1, 1, Player::Player1);
    t.traverse_root(5);
    let fresh = default_move_tree();
    let root_state = t.root_state();
    let fresh_state = fresh.root_state();
    assert_eq!(root_state.turn, Player::Player2);
    assert_eq!(root_state.playouts, fresh_state.playouts);
    assert_eq!(root_state.wins, fresh_state.wins);
    for c in 0..7 {
        assert!(t.child_state(c).is_none());
        assert!(fresh.child_state(c).is_none());
    }
}

#[test]
fn think_adds_one_playout_to_the_root() {
    let mut t = default_move_tree();
    let board = default_board();
    let mut rng = StdRng::seed_from_u64(7);
    assert!(t.can_record(1));
    t.think(&board, &mut rng);
    assert_eq!(t.root_state().playouts, 1);
    for _ in 0..49 {
        t.think(&board, &mut rng);
    }
    assert_eq!(t.root_state().playouts, 50);
}

#[test]
fn think_keeps_the_tree_usable_after_a_real_move() {
    let mut t = default_move_tree();
    let mut board = default_board();
    let mut rng = StdRng::seed_from_u64(11);
    for _ in 0..20 {
        t.think(&board, &mut rng);
    }
    let col = t.best_move(&board);
    assert!(col < 7);
    board
        .make_move(PlayerMove { player: board.turn, column: col })
        .unwrap();
    t.traverse_root(col);
    for _ in 0..20 {
        t.think(&board, &mut rng);
    }
    assert!(t.root_state().playouts >= 20);
}

#[test]
fn best_move_takes_the_highest_win_rate() {
    let mut t = default_move_tree();
    let board = default_board();
    let root = t.root_index();
    // column 2: one playout, one win; column 0: one playout, no win
    t.add_playout(root, 2, 1, 1, Player::Player1);
    t.add_playout(root, 0, 0, 1, Player::Player1);
    assert_eq!(t.best_move(&board), 2);
}

#[test]
fn best_move_breaks_ties_to_the_first_column() {
    let t = default_move_tree();
    let board = default_board();
    // nothing searched: every legal column rates zero
    assert_eq!(t.best_move(&board), 0);
}

#[test]
fn best_move_skips_full_columns() {
    let mut t = default_move_tree();
    let mut board = default_board();
    let root = t.root_index();
    t.add_playout(root, 0, 1, 1, Player::Player1);
    // fill column 0 so the only searched column has no room
    for _ in 0..3 {
        board
            .make_move(PlayerMove { player: Player::Player1, column: 0 })
            .unwrap();
        board
            .make_move(PlayerMove { player: Player::Player2, column: 0 })
            .unwrap();
    }
    let col = t.best_move(&board);
    assert!(col != 0 && col < 7);
}

#[test]
fn random_playout_is_reproducible_and_bounded() {
    let board = default_board();
    let mut rng1 = StdRng::seed_from_u64(42);
    let mut rng2 = StdRng::seed_from_u64(42);
    let w1 = random_playout(&board, 200, Player::Player1, &mut rng1);
    let w2 = random_playout(&board, 200, Player::Player1, &mut rng2);
    assert_eq!(w1, w2);
    assert!(w1 <= 200);
    let mut rng3 = StdRng::seed_from_u64(43);
    let w3 = random_playout(&board, 0, Player::Player2, &mut rng3);
    assert_eq!(w3, 0);
}

#[test]
fn random_games_end_decided() {
    let mut rng = StdRng::seed_from_u64(5);
    for _ in 0..20 {
        let mut board = default_board();
        let outcome = random_game_simulation(&mut board, &mut rng);
        assert!(outcome != Winner::NoWinner);
        assert_eq!(outcome, board.winner);
    }
}

#[test]
fn choose_max_index_takes_the_first_maximum() {
    assert_eq!(choose_max_index(&vec![3, 7, 7, 2]), 1);
    assert_eq!(choose_max_index(&vec![9]), 0);
    assert_eq!(choose_max_index(&vec![0, 0, 0]), 0);
    assert_eq!(choose_max_index(&vec![1, 2, 3, 4]), 3);
}

#[test]
fn integer_square_roots() {
    assert_eq!(isqrt(0), 0);
    assert_eq!(isqrt(1), 1);
    assert_eq!(isqrt(15), 3);
    assert_eq!(isqrt(16), 4);
    assert_eq!(isqrt(2977234944), 54564);
    assert_eq!(isqrt(u64::MAX), 4294967295);
}

#[test]
fn fixed_point_logarithms() {
    // ln(1) is zero; ln(2) is ln(2) at 16 fractional bits
    assert_eq!(ln_fix(1), 0);
    assert_eq!(ln_fix(2), 45426);
    // ln(4) doubles it exactly: the mantissa bits are all zero
    assert_eq!(ln_fix(4), 2 * 45426);
}

#[test]
fn selection_score_values() {
    // an unvisited column outranks everything
    assert_eq!(get_score(0, 0, 5, 2), u64::MAX);
    // one win in one playout against one parent playout:
    // 65536 + 2 * isqrt(ln_fix(2) * 65536) == 65536 + 2 * isqrt(2977038336)
    assert_eq!(get_score(1, 1, 1, 2), 65536 + 2 * 54562);
    // more playouts shrink the exploration share
    let few = get_score(0, 1, 100, 2);
    let many = get_score(0, 100, 100, 2);
    assert!(many < few);
}

#[test]
fn explore_constant_is_configurable() {
    let bold = move_tree_with_explore(10);
    let timid = move_tree_with_explore(0);
    assert_eq!(bold.root_state().playouts, 0);
    assert_eq!(timid.root_state().playouts, 0);
}
