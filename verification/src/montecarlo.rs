//! Random rollouts: play uniformly random legal moves on a cloned board
//! until the game is decided, and count how often a chosen player wins.
use vstd::prelude::*;

use rand::Rng;

verus! {

use crate::board::Board;
use crate::board::Player;
use crate::board::PlayerMove;
use crate::board::Winner;
use crate::board::BOARD_HEIGHT;
use crate::board::BOARD_WIDTH;
use crate::board::height_of;
use crate::board::move_ok;
use crate::board::move_result;
use crate::board::sum_heights;

#[verifier::external_type_specification]
#[verifier::external_body]
pub struct ExStdRng(rand::rngs::StdRng);

/// Relies on rand's Rng::gen_range on the range 0..n: the draw lies below n.
/// The draw depends on the generator's state, so nothing more is promised of
/// which value comes back.
#[verifier::external_body]
fn rand_below(rng: &mut rand::rngs::StdRng, n: usize) -> (r: usize)
    requires
        n >= 1,
    ensures
        r < n,
{
    rng.gen_range(0..n)
}

/// A height sequence whose entries all sit at the full column height of 6
/// sums to 6 per entry.
proof fn lemma_sum_heights_full(s: Seq<usize>, n: int)
    requires
        0 <= n <= s.len(),
        forall|c: int| 0 <= c < s.len() ==> s[c] == 6usize,
    ensures
        sum_heights(s, n) == 6 * n,
    decreases n,
{
    if n > 0 {
        lemma_sum_heights_full(s, n - 1);
    }
}

/// A well-formed board whose game is still open has a column with room.
pub proof fn lemma_open_board_has_room(b: Board)
    requires
        b.wf(),
        b.winner == Winner::NoWinner,
    ensures
        exists|c: int| 0 <= c < 7 && #[trigger] height_of(b, c) < 6,
{
    if forall|c: int| 0 <= c < 7 ==> #[trigger] height_of(b, c) >= 6 {
        assert forall|c: int| 0 <= c < b.top_spot@.len() implies b.top_spot@[c] == 6usize by {
            assert(height_of(b, c) >= 6);
            assert(height_of(b, c) <= 6);
        }
        lemma_sum_heights_full(b.top_spot@, 7);
        assert(false);
    }
}

/// How the height sum changes across an accepted move: exactly one column
/// grew by one counter.
pub proof fn lemma_sum_heights_after_move(b0: Board, b1: Board, col: int, n: int)
    requires
        0 <= col < 7,
        0 <= n <= 7,
        forall|c: int|
            0 <= c < 7 ==> #[trigger] height_of(b1, c) == if c == col {
                height_of(b0, c) + 1
            } else {
                height_of(b0, c)
            },
    ensures
        sum_heights(b1.top_spot@, n) == sum_heights(b0.top_spot@, n) + if col < n {
            1int
        } else {
            0int
        },
    decreases n,
{
    if n > 0 {
        lemma_sum_heights_after_move(b0, b1, col, n - 1);
        assert(height_of(b1, n - 1) == if n - 1 == col {
            height_of(b0, n - 1) + 1
        } else {
            height_of(b0, n - 1)
        });
    }
}

/// Play one uniformly random legal move as the current player.
pub fn random_move(rng: &mut rand::rngs::StdRng, board: &mut Board)
    requires
        old(board).wf(),
        old(board).winner == Winner::NoWinner,
    ensures
        final(board).wf(),
        exists|c: int|
            #![auto]
            move_ok(*old(board), old(board).turn, c) && move_result(
                *old(board),
                *final(board),
                old(board).turn,
                c,
            ),
{
    let mut legal: Vec<usize> = Vec::new();
    let mut c: usize = 0;
    while c < BOARD_WIDTH
        invariant
            *board == *old(board),
            board.wf(),
            c <= 7,
            forall|i: int|
                0 <= i < legal@.len() ==> (#[trigger] legal@[i] < 7 && height_of(
                    *board,
                    legal@[i] as int,
                ) < 6),
            forall|k: int|
                0 <= k < c && #[trigger] height_of(*board, k) < 6 ==> legal@.contains(k as usize),
        decreases 7 - c,
    {
        if board.top_spot[c] < BOARD_HEIGHT {
            let ghost old_legal = legal@;
            legal.push(c);
            proof {
                assert(legal@[legal@.len() - 1] == c);
                assert forall|k: int|
                    0 <= k < c + 1 && #[trigger] height_of(*board, k) < 6 implies legal@.contains(
                    k as usize,
                ) by {
                    if k < c {
                        let i = choose|i: int| 0 <= i < old_legal.len() && old_legal[i] == k as usize;
                        assert(legal@[i] == k as usize);
                    } else {
                        assert(legal@[legal@.len() - 1] == k as usize);
                    }
                }
            }
        }
        c += 1;
    }
    proof {
        lemma_open_board_has_room(*board);
        let k = choose|k: int| 0 <= k < 7 && #[trigger] height_of(*board, k) < 6;
        assert(legal@.contains(k as usize));
        assert(legal@.len() >= 1);
    }
    let idx = rand_below(rng, legal.len());
    let col = legal[idx];
    let turn = board.turn;
    let result = board.make_move(PlayerMove { player: turn, column: col });
    proof {
        assert(move_ok(*old(board), old(board).turn, col as int));
    }
    result.unwrap();
}

/// Play random legal moves until the game is decided, and report the
/// outcome; a board that fills up without a line of four ends in a draw.
pub fn random_game_simulation(board: &mut Board, rng: &mut rand::rngs::StdRng) -> (w: Winner)
    requires
        old(board).wf(),
    ensures
        final(board).wf(),
        w == final(board).winner,
        w != Winner::NoWinner,
{
    loop
        invariant
            board.wf(),
        decreases 42 - sum_heights(board.top_spot@, 7),
    {
        if board.winner != Winner::NoWinner {
            return board.winner;
        }
        let ghost before = *board;
        random_move(rng, board);
        proof {
            let c = choose|c: int|
                #![auto]
                move_ok(before, before.turn, c) && move_result(before, *board, before.turn, c);
            lemma_sum_heights_after_move(before, *board, c, 7);
        }
    }
}

/// Estimate a position by rollouts: clone the board, play it out at random,
/// and count the trials in which chosen_player wins. The result is a raw
/// count over the given number of trials, never more than that number.
pub fn random_playout(
    board: &Board,
    playouts: usize,
    chosen_player: Player,
    rng: &mut rand::rngs::StdRng,
) -> (wins: usize)
    requires
        board.wf(),
    ensures
        wins <= playouts,
{
    let mut wins: usize = 0;
    let mut trial: usize = 0;
    while trial < playouts
        invariant
            board.wf(),
            wins <= trial <= playouts,
        decreases playouts - trial,
    {
        let mut sim_board = board.clone();
        let sim_winner = random_game_simulation(&mut sim_board, rng);
        if sim_winner == Winner::WinningPlayer(chosen_player) {
            wins += 1;
        }
        trial += 1;
    }
    wins
}

} // verus!
