//! The board state machine: a fixed 7x6 grid of counters, per-column fill
//! heights, the player to move, and the game outcome. Moves are validated,
//! applied, and wins are detected incrementally by scanning only the four
//! lines that pass through the cell just placed.
use vstd::prelude::*;

verus! {

broadcast use vstd::array::group_array_axioms;

pub const BOARD_WIDTH: usize = 7;
pub const BOARD_HEIGHT: usize = 6;
pub const N_IN_A_ROW: usize = 4;

#[derive(Clone, Copy, Debug, PartialEq, Eq, Structural)]
pub enum Player {
    Player1,
    Player2,
}

impl Player {
    /// The opponent of this player.
    pub open spec fn spec_other(&self) -> Player {
        match self {
            Player::Player1 => Player::Player2,
            Player::Player2 => Player::Player1,
        }
    }

    #[verifier::when_used_as_spec(spec_other)]
    pub fn other(&self) -> (r: Player)
        ensures
            r == self.spec_other(),
    {
        match self {
            Player::Player1 => Player::Player2,
            Player::Player2 => Player::Player1,
        }
    }
}

#[derive(Clone, Copy, Debug, PartialEq, Eq, Structural)]
pub enum Counter {
    PlayerCounter(Player),
    NoCounter,
}

#[derive(Debug, PartialEq, Eq, Structural, Clone, Copy)]
pub enum Winner {
    WinningPlayer(Player),
    Draw,
    NoWinner,
}

#[derive(Debug, Clone, Copy)]
pub struct PlayerMove {
    pub player: Player,
    pub column: usize,
}

#[derive(Debug, PartialEq, Eq, Structural, Clone, Copy)]
pub enum MoveError {
    GameOver,
    NotYourTurn,
    InvalidColumn,
    ColumnFull,
}

#[derive(Debug, Clone, Copy)]
pub struct Board {
    pub turn: Player,
    pub winner: Winner,
    pub top_spot: [usize; BOARD_WIDTH],
    pub matrix: [[Counter; BOARD_HEIGHT]; BOARD_WIDTH],
}

/// Whether (c, r) is a coordinate on the grid.
pub open spec fn in_grid(c: int, r: int) -> bool {
    0 <= c < 7 && 0 <= r < 6
}

/// The counter in column c, row r (row 0 is the bottom).
pub open spec fn cell(b: Board, c: int, r: int) -> Counter {
    b.matrix@[c]@[r]
}

/// Whether (c, r) is on the grid and holds a counter of player p.
pub open spec fn cell_is(b: Board, p: Player, c: int, r: int) -> bool {
    in_grid(c, r) && cell(b, c, r) == Counter::PlayerCounter(p)
}

/// Four counters of player p in a row, starting at (c0, r0) and stepping by
/// (dc, dr).
pub open spec fn line_at(b: Board, p: Player, c0: int, r0: int, dc: int, dr: int) -> bool {
    &&& cell_is(b, p, c0, r0)
    &&& cell_is(b, p, c0 + dc, r0 + dr)
    &&& cell_is(b, p, c0 + 2 * dc, r0 + 2 * dr)
    &&& cell_is(b, p, c0 + 3 * dc, r0 + 3 * dr)
}

/// A line of four for p in direction (dc, dr) that passes through (c, r).
pub open spec fn line_dir_through(b: Board, p: Player, c: int, r: int, dc: int, dr: int) -> bool {
    exists|j: int| -3 <= j <= 0 && #[trigger] line_at(b, p, c + j * dc, r + j * dr, dc, dr)
}

/// A line of four for p in some direction that passes through (c, r).
pub open spec fn wins_at(b: Board, p: Player, c: int, r: int) -> bool {
    ||| line_dir_through(b, p, c, r, 0, 1)
    ||| line_dir_through(b, p, c, r, 1, 0)
    ||| line_dir_through(b, p, c, r, 1, 1)
    ||| line_dir_through(b, p, c, r, 1, -1)
}

/// A line of four for p somewhere on the board in direction (dc, dr).
pub open spec fn has_line_dir(b: Board, p: Player, dc: int, dr: int) -> bool {
    exists|c0: int, r0: int| #[trigger] line_at(b, p, c0, r0, dc, dr)
}

/// Player p has four in a row somewhere on the board.
pub open spec fn has_four(b: Board, p: Player) -> bool {
    ||| has_line_dir(b, p, 0, 1)
    ||| has_line_dir(b, p, 1, 0)
    ||| has_line_dir(b, p, 1, 1)
    ||| has_line_dir(b, p, 1, -1)
}

/// The fill height of column c.
pub open spec fn height_of(b: Board, c: int) -> int {
    b.top_spot@[c] as int
}

/// The sum of the first n entries of a height sequence.
pub open spec fn sum_heights(s: Seq<usize>, n: int) -> int
    decreases n,
{
    if n <= 0 {
        0
    } else {
        sum_heights(s, n - 1) + s[n - 1]
    }
}

impl Board {
    /// The structural invariant: heights are in range and tell exactly which
    /// cells are occupied, and the recorded outcome is consistent with the
    /// grid contents.
    pub open spec fn wf(self) -> bool {
        &&& forall|c: int| 0 <= c < 7 ==> #[trigger] height_of(self, c) <= 6
        &&& forall|c: int, r: int|
            in_grid(c, r) ==> ((#[trigger] cell(self, c, r)) == Counter::NoCounter <==> r
                >= height_of(self, c))
        &&& match self.winner {
            Winner::NoWinner => !has_four(self, Player::Player1) && !has_four(
                self,
                Player::Player2,
            ) && sum_heights(self.top_spot@, 7) < 42,
            Winner::WinningPlayer(p) => has_four(self, p),
            Winner::Draw => sum_heights(self.top_spot@, 7) == 42,
        }
    }
}

/// Whether a move by p on column col is accepted by make_move.
pub open spec fn move_ok(b: Board, p: Player, col: int) -> bool {
    &&& b.winner == Winner::NoWinner
    &&& p == b.turn
    &&& 0 <= col < 7
    &&& height_of(b, col) < 6
}

/// How the board after an accepted move by p on column col relates to the
/// board before it: one counter placed at the column's old height, that
/// height up by one, the turn flipped, and the outcome set exactly when the
/// move completes a line of four or fills the grid.
pub open spec fn move_result(b0: Board, b1: Board, p: Player, col: int) -> bool {
    &&& b1.turn == p.spec_other()
    &&& forall|c: int|
        0 <= c < 7 ==> #[trigger] height_of(b1, c) == if c == col {
            height_of(b0, c) + 1
        } else {
            height_of(b0, c)
        }
    &&& forall|c: int, r: int|
        in_grid(c, r) ==> (#[trigger] cell(b1, c, r)) == if c == col && r == height_of(b0, col) {
            Counter::PlayerCounter(p)
        } else {
            cell(b0, c, r)
        }
    &&& b1.winner == if has_four(b1, p) {
        Winner::WinningPlayer(p)
    } else if sum_heights(b1.top_spot@, 7) == 42 {
        Winner::Draw
    } else {
        Winner::NoWinner
    }
}

/// A fresh game: empty grid, Player1 to move, no outcome yet.
pub fn default_board() -> (b: Board)
    ensures
        b.wf(),
        b.turn == Player::Player1,
        b.winner == Winner::NoWinner,
        forall|c: int| 0 <= c < 7 ==> #[trigger] height_of(b, c) == 0,
        forall|c: int, r: int| in_grid(c, r) ==> #[trigger] cell(b, c, r) == Counter::NoCounter,
{
    let b = Board {
        turn: Player::Player1,
        winner: Winner::NoWinner,
        top_spot: [0; BOARD_WIDTH],
        matrix: [[Counter::NoCounter; BOARD_HEIGHT]; BOARD_WIDTH],
    };
    proof {
        lemma_empty_no_four(b);
        lemma_sum_heights_zero(b.top_spot@, 7);
    }
    b
}

/// An empty board has no line of four for either player.
proof fn lemma_empty_no_four(b: Board)
    requires
        forall|c: int, r: int| in_grid(c, r) ==> #[trigger] cell(b, c, r) == Counter::NoCounter,
    ensures
        !has_four(b, Player::Player1),
        !has_four(b, Player::Player2),
{
}

/// An all-zero height sequence sums to zero.
proof fn lemma_sum_heights_zero(s: Seq<usize>, n: int)
    requires
        0 <= n <= s.len(),
        forall|c: int| 0 <= c < s.len() ==> s[c] == 0usize,
    ensures
        sum_heights(s, n) == 0,
    decreases n,
{
    if n > 0 {
        lemma_sum_heights_zero(s, n - 1);
    }
}

/// Bounds on a prefix sum of heights that are each at most 6.
proof fn lemma_sum_heights_bound(s: Seq<usize>, n: int)
    requires
        0 <= n <= s.len(),
        forall|c: int| 0 <= c < s.len() ==> #[trigger] (s[c] as int) <= 6,
    ensures
        0 <= sum_heights(s, n) <= 6 * n,
    decreases n,
{
    if n > 0 {
        lemma_sum_heights_bound(s, n - 1);
    }
}

/// How a prefix sum changes when one entry is replaced.
proof fn lemma_sum_heights_update(s: Seq<usize>, col: int, v: usize, n: int)
    requires
        0 <= col < s.len(),
        0 <= n <= s.len(),
    ensures
        sum_heights(s.update(col, v), n) == sum_heights(s, n) + if col < n {
            v - s[col]
        } else {
            0
        },
    decreases n,
{
    if n > 0 {
        lemma_sum_heights_update(s, col, v, n - 1);
    }
}

/// Reading one spot, treating off-grid coordinates as mismatches.
fn check_spot(board: &Board, column: isize, row: isize, turn_player: Counter) -> (r: bool)
    ensures
        r == (in_grid(column as int, row as int) && cell(*board, column as int, row as int)
            == turn_player),
{
    if column < 0 || column as usize >= BOARD_WIDTH {
        return false;
    }
    if row < 0 || row as usize >= BOARD_HEIGHT {
        return false;
    }
    board.matrix[column as usize][row as usize] == turn_player
}

/// A starting offset j and four matching cells along (dc, dr) from it make a
/// line through (c, r).
proof fn lemma_window_to_line(b: Board, p: Player, c: int, r: int, dc: int, dr: int, j: int)
    requires
        -3 <= j <= 0,
        cell_is(b, p, c + j * dc, r + j * dr),
        cell_is(b, p, c + (j + 1) * dc, r + (j + 1) * dr),
        cell_is(b, p, c + (j + 2) * dc, r + (j + 2) * dr),
        cell_is(b, p, c + (j + 3) * dc, r + (j + 3) * dr),
    ensures
        line_dir_through(b, p, c, r, dc, dr),
{
    assert((j + 1) * dc == j * dc + dc) by (nonlinear_arith);
    assert((j + 1) * dr == j * dr + dr) by (nonlinear_arith);
    assert((j + 2) * dc == j * dc + 2 * dc) by (nonlinear_arith);
    assert((j + 2) * dr == j * dr + 2 * dr) by (nonlinear_arith);
    assert((j + 3) * dc == j * dc + 3 * dc) by (nonlinear_arith);
    assert((j + 3) * dr == j * dr + 3 * dr) by (nonlinear_arith);
    assert(line_at(b, p, c + j * dc, r + j * dr, dc, dr));
}

/// A line through (c, r) yields a starting offset j whose four cells along
/// (dc, dr) all match.
proof fn lemma_line_to_window(b: Board, p: Player, c: int, r: int, dc: int, dr: int) -> (j: int)
    requires
        line_dir_through(b, p, c, r, dc, dr),
    ensures
        -3 <= j <= 0,
        cell_is(b, p, c + j * dc, r + j * dr),
        cell_is(b, p, c + (j + 1) * dc, r + (j + 1) * dr),
        cell_is(b, p, c + (j + 2) * dc, r + (j + 2) * dr),
        cell_is(b, p, c + (j + 3) * dc, r + (j + 3) * dr),
{
    let j = choose|j: int| -3 <= j <= 0 && #[trigger] line_at(b, p, c + j * dc, r + j * dr, dc, dr);
    assert((j + 1) * dc == j * dc + dc) by (nonlinear_arith);
    assert((j + 1) * dr == j * dr + dr) by (nonlinear_arith);
    assert((j + 2) * dc == j * dc + 2 * dc) by (nonlinear_arith);
    assert((j + 2) * dr == j * dr + 2 * dr) by (nonlinear_arith);
    assert((j + 3) * dc == j * dc + 3 * dc) by (nonlinear_arith);
    assert((j + 3) * dr == j * dr + 3 * dr) by (nonlinear_arith);
    j
}

/// Scan for four in a row through the just-placed counter at (column, row):
/// first expand in the positive direction up to three steps, then expand in
/// the negative direction only as far as still needed.
fn efficient_check(
    board: &Board,
    column: usize,
    row: usize,
    column_shift: isize,
    row_shift: isize,
    turn_player: Counter,
) -> (res: bool)
    requires
        column < 7,
        row < 6,
        column_shift == 1,
        row_shift == 1 || row_shift == 0 || row_shift == -1isize,
        turn_player is PlayerCounter,
        cell(*board, column as int, row as int) == turn_player,
    ensures
        res == line_dir_through(
            *board,
            turn_player->PlayerCounter_0,
            column as int,
            row as int,
            column_shift as int,
            row_shift as int,
        ),
{
    let ghost p = turn_player->PlayerCounter_0;
    let ghost dc = column_shift as int;
    let ghost dr = row_shift as int;
    let ghost c = column as int;
    let ghost r = row as int;
    let b = board;

    let mut in_a_row_count: usize = 1;
    let mut i: usize = 1;

    while i <= N_IN_A_ROW - 1
        invariant
            column < 7,
            row < 6,
            column_shift == 1,
            row_shift == 1 || row_shift == 0 || row_shift == -1isize,
            turn_player is PlayerCounter,
            b == board,
            cell(*b, c, r) == turn_player,
            p == turn_player->PlayerCounter_0,
            dc == column_shift as int,
            dr == row_shift as int,
            c == column as int,
            r == row as int,
            1 <= i <= 4,
            in_a_row_count == i,
            forall|k: int| 1 <= k < i ==> #[trigger] cell_is(*b, p, c + k * dc, r + k * dr),
        ensures
            1 <= in_a_row_count <= 4,
            forall|k: int| 1 <= k < in_a_row_count ==> #[trigger] cell_is(*b, p, c + k * dc, r + k * dr),
            in_a_row_count < 4 ==> !cell_is(
                *b,
                p,
                c + (in_a_row_count as int) * dc,
                r + (in_a_row_count as int) * dr,
            ),
        decreases 4 - i,
    {
        proof {
            let ii = i as int;
            assert(ii * dc == ii) by (nonlinear_arith)
                requires
                    dc == 1,
                    1 <= ii <= 3;
            assert(dr == 1 ==> ii * dr == ii) by (nonlinear_arith);
            assert(dr == 0 ==> ii * dr == 0) by (nonlinear_arith);
            assert(dr == -1 ==> ii * dr == -ii) by (nonlinear_arith);
        }
        if check_spot(
            b,
            column as isize + (i as isize) * column_shift,
            row as isize + (i as isize) * row_shift,
            turn_player,
        ) {
            in_a_row_count += 1;
            i += 1;
        } else {
            break;
        }
    }

    if in_a_row_count == N_IN_A_ROW {
        proof {
            assert(0 * dc == 0 && 0 * dr == 0) by (nonlinear_arith);
            assert(1 * dc == dc && 1 * dr == dr) by (nonlinear_arith);
            assert(cell_is(*b, p, c + 0 * dc, r + 0 * dr));
            lemma_window_to_line(
                *board,
                turn_player->PlayerCounter_0,
                column as int,
                row as int,
                column_shift as int,
                row_shift as int,
                0,
            );
        }
        return true;
    }

    let ghost fwd = in_a_row_count as int - 1;
    let need = N_IN_A_ROW - in_a_row_count;
    let ghost mut miss: int = 0;
    let mut t: usize = 1;

    while t <= need
        invariant
            column < 7,
            row < 6,
            column_shift == 1,
            row_shift == 1 || row_shift == 0 || row_shift == -1isize,
            turn_player is PlayerCounter,
            b == board,
            cell(*b, c, r) == turn_player,
            p == turn_player->PlayerCounter_0,
            dc == column_shift as int,
            dr == row_shift as int,
            c == column as int,
            r == row as int,
            0 <= fwd <= 2,
            need == 3 - fwd,
            1 <= t <= need + 1,
            forall|k: int| 1 <= k <= fwd ==> #[trigger] cell_is(*b, p, c + k * dc, r + k * dr),
            !cell_is(*b, p, c + (fwd + 1) * dc, r + (fwd + 1) * dr),
            in_a_row_count as int <= 1 + fwd + (t - 1),
            in_a_row_count < 4,
            miss == 0 ==> in_a_row_count as int == fwd + t && forall|k: int|
                1 <= k < t ==> #[trigger] cell_is(*b, p, c + (-k) * dc, r + (-k) * dr),
            miss != 0 ==> 1 <= miss < t && !cell_is(*b, p, c + (-miss) * dc, r + (-miss) * dr)
                && in_a_row_count as int <= fwd + t - 1,
        decreases need + 1 - t,
    {
        proof {
            let tt = t as int;
            assert(tt * dc == tt) by (nonlinear_arith)
                requires
                    dc == 1,
                    1 <= tt <= 3;
            assert(dr == 1 ==> tt * dr == tt) by (nonlinear_arith);
            assert(dr == 0 ==> tt * dr == 0) by (nonlinear_arith);
            assert(dr == -1 ==> tt * dr == -tt) by (nonlinear_arith);
            assert((-tt) * dc == -(tt * dc) && (-tt) * dr == -(tt * dr)) by (nonlinear_arith);
        }
        if check_spot(
            b,
            column as isize - (t as isize) * column_shift,
            row as isize - (t as isize) * row_shift,
            turn_player,
        ) {
            in_a_row_count += 1;
            if in_a_row_count == N_IN_A_ROW {
                proof {
                    // all of the scanned negative offsets matched, so the
                    // window starting at fwd - 3 is complete
                    assert(miss == 0);
                    let tt = t as int;
                    assert(tt == need as int);
                    assert(turn_player == Counter::PlayerCounter(p));
                    assert(cell_is(*b, p, c + (-tt) * dc, r + (-tt) * dr));
                    let j = fwd - 3;
                    assert(0 * dc == 0 && 0 * dr == 0) by (nonlinear_arith);
                    assert forall|k: int| j <= k <= fwd implies #[trigger] cell_is(
                        *b,
                        p,
                        c + k * dc,
                        r + k * dr,
                    ) by {
                        if k == 0 {
                            assert(cell_is(*b, p, c + 0 * dc, r + 0 * dr));
                        } else if k < 0 {
                            let kk = -k;
                            assert(1 <= kk <= tt);
                            if kk < tt {
                                assert(cell_is(*b, p, c + (-kk) * dc, r + (-kk) * dr));
                            } else {
                                assert(kk == tt);
                                assert(cell_is(*b, p, c + (-tt) * dc, r + (-tt) * dr));
                            }
                            assert((-kk) * dc == k * dc && (-kk) * dr == k * dr);
                        }
                    }
                    assert(cell_is(*b, p, c + j * dc, r + j * dr));
                    assert(cell_is(*b, p, c + (j + 1) * dc, r + (j + 1) * dr));
                    assert(cell_is(*b, p, c + (j + 2) * dc, r + (j + 2) * dr));
                    assert(cell_is(*b, p, c + (j + 3) * dc, r + (j + 3) * dr));
                    lemma_window_to_line(
                        *board,
                        turn_player->PlayerCounter_0,
                        column as int,
                        row as int,
                        column_shift as int,
                        row_shift as int,
                        j,
                    );
                }
                return true;
            }
        } else {
            proof {
                if miss == 0 {
                    miss = t as int;
                }
            }
        }
        t += 1;
    }

    proof {
        // some scanned offset mismatched on each side close enough in, so no
        // window of four through (c, r) exists
        if line_dir_through(
            *board,
            turn_player->PlayerCounter_0,
            column as int,
            row as int,
            column_shift as int,
            row_shift as int,
        ) {
            let j = lemma_line_to_window(
                *board,
                turn_player->PlayerCounter_0,
                column as int,
                row as int,
                column_shift as int,
                row_shift as int,
            );
            // the forward mismatch at fwd + 1 pins j + 3 at or below fwd
            assert(j + 3 <= fwd) by {
                if j + 3 > fwd {
                    assert(j <= fwd + 1 <= j + 3);
                    if fwd + 1 == j {
                        assert(false);
                    } else if fwd + 1 == j + 1 {
                        assert(false);
                    } else if fwd + 1 == j + 2 {
                        assert(false);
                    } else {
                        assert(fwd + 1 == j + 3);
                        assert(false);
                    }
                }
            }
            // so every scanned negative offset lies inside the window
            if miss == 0 {
                assert(in_a_row_count as int == fwd + (need + 1));
                assert(in_a_row_count < 4);
                assert(false);
            } else {
                let k = -miss;
                assert(j <= k <= j + 3);
                if k == j {
                    assert(false);
                } else if k == j + 1 {
                    assert(false);
                } else if k == j + 2 {
                    assert(false);
                } else {
                    assert(false);
                }
            }
        }
    }
    false
}

/// Two boards whose cells agree for player p everywhere have the same lines
/// for p: lines are a function of the cells alone.
proof fn lemma_four_congruence(a: Board, b: Board, p: Player)
    requires
        forall|x: int, y: int|
            in_grid(x, y) ==> (#[trigger] cell_is(a, p, x, y) == #[trigger] cell_is(b, p, x, y)),
    ensures
        has_four(a, p) == has_four(b, p),
        forall|c: int, r: int| #[trigger] wins_at(a, p, c, r) == wins_at(b, p, c, r),
{
    assert forall|c0: int, r0: int, dc: int, dr: int| #[trigger] line_at(a, p, c0, r0, dc, dr)
        == line_at(b, p, c0, r0, dc, dr) by {
        if line_at(a, p, c0, r0, dc, dr) {
            assert(cell_is(b, p, c0, r0));
            assert(cell_is(b, p, c0 + dc, r0 + dr));
            assert(cell_is(b, p, c0 + 2 * dc, r0 + 2 * dr));
            assert(cell_is(b, p, c0 + 3 * dc, r0 + 3 * dr));
        }
        if line_at(b, p, c0, r0, dc, dr) {
            assert(cell_is(a, p, c0, r0));
            assert(cell_is(a, p, c0 + dc, r0 + dr));
            assert(cell_is(a, p, c0 + 2 * dc, r0 + 2 * dr));
            assert(cell_is(a, p, c0 + 3 * dc, r0 + 3 * dr));
        }
    }
    assert forall|dc: int, dr: int| #[trigger] has_line_dir(a, p, dc, dr) == has_line_dir(
        b,
        p,
        dc,
        dr,
    ) by {
        if has_line_dir(a, p, dc, dr) {
            let (c0, r0) = choose|c0: int, r0: int| #[trigger] line_at(a, p, c0, r0, dc, dr);
            assert(line_at(b, p, c0, r0, dc, dr));
        }
        if has_line_dir(b, p, dc, dr) {
            let (c0, r0) = choose|c0: int, r0: int| #[trigger] line_at(b, p, c0, r0, dc, dr);
            assert(line_at(a, p, c0, r0, dc, dr));
        }
    }
    assert forall|c: int, r: int, dc: int, dr: int| #[trigger] line_dir_through(a, p, c, r, dc, dr)
        == line_dir_through(b, p, c, r, dc, dr) by {
        if line_dir_through(a, p, c, r, dc, dr) {
            let j = choose|j: int|
                -3 <= j <= 0 && #[trigger] line_at(a, p, c + j * dc, r + j * dr, dc, dr);
            assert(line_at(b, p, c + j * dc, r + j * dr, dc, dr));
        }
        if line_dir_through(b, p, c, r, dc, dr) {
            let j = choose|j: int|
                -3 <= j <= 0 && #[trigger] line_at(b, p, c + j * dc, r + j * dr, dc, dr);
            assert(line_at(a, p, c + j * dc, r + j * dr, dc, dr));
        }
    }
    assert forall|c: int, r: int| #[trigger] wins_at(a, p, c, r) == wins_at(b, p, c, r) by {
        assert(line_dir_through(a, p, c, r, 0, 1) == line_dir_through(b, p, c, r, 0, 1));
        assert(line_dir_through(a, p, c, r, 1, 0) == line_dir_through(b, p, c, r, 1, 0));
        assert(line_dir_through(a, p, c, r, 1, 1) == line_dir_through(b, p, c, r, 1, 1));
        assert(line_dir_through(a, p, c, r, 1, -1) == line_dir_through(b, p, c, r, 1, -1));
    }
}

/// In direction (dc, dr): if the board had no line of four for p before one
/// cell changed, any line of four afterwards passes through the changed cell.
proof fn lemma_line_localized_dir(
    b0: Board,
    b1: Board,
    p: Player,
    col: int,
    row: int,
    dc: int,
    dr: int,
)
    requires
        in_grid(col, row),
        !has_line_dir(b0, p, dc, dr),
        forall|x: int, y: int|
            in_grid(x, y) && !(x == col && y == row) ==> #[trigger] cell(b1, x, y) == cell(
                b0,
                x,
                y,
            ),
    ensures
        has_line_dir(b1, p, dc, dr) ==> line_dir_through(b1, p, col, row, dc, dr),
{
    if has_line_dir(b1, p, dc, dr) {
        let (c0, r0) = choose|c0: int, r0: int| #[trigger] line_at(b1, p, c0, r0, dc, dr);
        assert(0 * dc == 0 && 0 * dr == 0) by (nonlinear_arith);
        assert((-1) * dc == -dc && (-1) * dr == -dr) by (nonlinear_arith);
        assert((-2) * dc == -(2 * dc) && (-2) * dr == -(2 * dr)) by (nonlinear_arith);
        assert((-3) * dc == -(3 * dc) && (-3) * dr == -(3 * dr)) by (nonlinear_arith);
        if c0 == col && r0 == row {
            assert(line_at(b1, p, col + 0 * dc, row + 0 * dr, dc, dr));
        } else if c0 + dc == col && r0 + dr == row {
            assert(line_at(b1, p, col + (-1) * dc, row + (-1) * dr, dc, dr));
        } else if c0 + 2 * dc == col && r0 + 2 * dr == row {
            assert(line_at(b1, p, col + (-2) * dc, row + (-2) * dr, dc, dr));
        } else if c0 + 3 * dc == col && r0 + 3 * dr == row {
            assert(line_at(b1, p, col + (-3) * dc, row + (-3) * dr, dc, dr));
        } else {
            // the line avoids the changed cell, so it already stood before
            assert(cell_is(b0, p, c0, r0));
            assert(cell_is(b0, p, c0 + dc, r0 + dr));
            assert(cell_is(b0, p, c0 + 2 * dc, r0 + 2 * dr));
            assert(cell_is(b0, p, c0 + 3 * dc, r0 + 3 * dr));
            assert(line_at(b0, p, c0, r0, dc, dr));
            assert(false);
        }
    }
}

/// A line through a cell is in particular a line on the board.
proof fn lemma_through_to_has(b: Board, p: Player, col: int, row: int, dc: int, dr: int)
    ensures
        line_dir_through(b, p, col, row, dc, dr) ==> has_line_dir(b, p, dc, dr),
{
    if line_dir_through(b, p, col, row, dc, dr) {
        let j = choose|j: int|
            -3 <= j <= 0 && #[trigger] line_at(b, p, col + j * dc, row + j * dr, dc, dr);
        assert(line_at(b, p, col + j * dc, row + j * dr, dc, dr));
    }
}

/// If p had no four before one cell changed to hold a counter of p, then
/// afterwards p has four somewhere exactly when p has four through that cell.
proof fn lemma_win_localized(b0: Board, b1: Board, p: Player, col: int, row: int)
    requires
        in_grid(col, row),
        !has_four(b0, p),
        forall|x: int, y: int|
            in_grid(x, y) && !(x == col && y == row) ==> #[trigger] cell(b1, x, y) == cell(
                b0,
                x,
                y,
            ),
    ensures
        has_four(b1, p) == wins_at(b1, p, col, row),
{
    lemma_line_localized_dir(b0, b1, p, col, row, 0, 1);
    lemma_line_localized_dir(b0, b1, p, col, row, 1, 0);
    lemma_line_localized_dir(b0, b1, p, col, row, 1, 1);
    lemma_line_localized_dir(b0, b1, p, col, row, 1, -1);
    lemma_through_to_has(b1, p, col, row, 0, 1);
    lemma_through_to_has(b1, p, col, row, 1, 0);
    lemma_through_to_has(b1, p, col, row, 1, 1);
    lemma_through_to_has(b1, p, col, row, 1, -1);
}

/// The height sum is at most 36 plus any single column's height.
proof fn lemma_sum_heights_one_column(s: Seq<usize>, mc: int, n: int)
    requires
        0 <= mc < n <= s.len(),
        forall|c: int| 0 <= c < s.len() ==> #[trigger] (s[c] as int) <= 6,
    ensures
        sum_heights(s, n) <= 6 * n - 6 + s[mc],
    decreases n,
{
    if mc == n - 1 {
        lemma_sum_heights_bound(s, n - 1);
    } else {
        lemma_sum_heights_one_column(s, mc, n - 1);
    }
}

impl Board {
    /// Whether the counter just placed at (column, row) completes a vertical
    /// line of four: only the window ending at the placed cell can, since all
    /// cells above it are still empty.
    fn vertical_check(&self, column: usize, row: usize) -> (res: bool)
        requires
            column < 7,
            row < 6,
            cell(*self, column as int, row as int) == Counter::PlayerCounter(self.turn),
            forall|y: int|
                row < y < 6 ==> #[trigger] cell(*self, column as int, y) == Counter::NoCounter,
        ensures
            res == line_dir_through(*self, self.turn, column as int, row as int, 0, 1),
    {
        let ghost p = self.turn;
        let ghost c = column as int;
        let ghost r = row as int;
        let turn_player = Counter::PlayerCounter(self.turn);

        if row >= N_IN_A_ROW - 1 {
            let mut vert_in_a_row: usize = 1;
            let mut i: usize = 1;
            while i < N_IN_A_ROW
                invariant
                    column < 7,
                    3 <= row < 6,
                    p == self.turn,
                    c == column as int,
                    r == row as int,
                    turn_player == Counter::PlayerCounter(p),
                    cell(*self, c, r) == turn_player,
                    1 <= i <= 3,
                    vert_in_a_row == i,
                    forall|y: int| 1 <= y < i ==> #[trigger] cell_is(*self, p, c, r - y),
                ensures
                    !(cell_is(*self, p, c, r - 1) && cell_is(*self, p, c, r - 2) && cell_is(
                        *self,
                        p,
                        c,
                        r - 3,
                    )),
                decreases 4 - i,
            {
                if self.matrix[column][row - i] == turn_player {
                    vert_in_a_row += 1;
                    if vert_in_a_row == N_IN_A_ROW {
                        proof {
                            assert(cell_is(*self, p, c, r - 1));
                            assert(cell_is(*self, p, c, r - 2));
                            assert(cell_is(*self, p, c, r - 3));
                            lemma_window_to_line(*self, p, c, r, 0, 1, -3);
                        }
                        return true;
                    }
                    i += 1;
                } else {
                    break;
                }
            }
            proof {
                lemma_no_vertical(*self, p, c, r);
            }
            return false;
        }
        proof {
            lemma_no_vertical(*self, p, c, r);
        }
        false
    }
}

/// No vertical line of four passes through (c, r) when the cells above it
/// are empty and the three below it do not all match.
proof fn lemma_no_vertical(b: Board, p: Player, c: int, r: int)
    requires
        in_grid(c, r),
        forall|y: int| r < y < 6 ==> #[trigger] cell(b, c, y) == Counter::NoCounter,
        !(cell_is(b, p, c, r - 1) && cell_is(b, p, c, r - 2) && cell_is(b, p, c, r - 3)),
    ensures
        !line_dir_through(b, p, c, r, 0, 1),
{
    if line_dir_through(b, p, c, r, 0, 1) {
        let j = choose|j: int| -3 <= j <= 0 && #[trigger] line_at(b, p, c + j * 0, r + j * 1, 0, 1);
        assert(cell_is(b, p, c, r + j + 3));
        if j > -3 {
            assert(cell(b, c, r + j + 3) == Counter::NoCounter);
            assert(false);
        } else {
            assert(cell_is(b, p, c, r - 3));
            assert(cell_is(b, p, c, r - 2));
            assert(cell_is(b, p, c, r - 1));
            assert(false);
        }
    }
}

impl Board {
    /// Whether the counter just placed at (column, row) for the player to
    /// move completes a line of four in any of the four directions.
    fn winning_move(&self, column: usize, row: usize) -> (res: bool)
        requires
            column < 7,
            row < 6,
            cell(*self, column as int, row as int) == Counter::PlayerCounter(self.turn),
            forall|y: int|
                row < y < 6 ==> #[trigger] cell(*self, column as int, y) == Counter::NoCounter,
        ensures
            res == wins_at(*self, self.turn, column as int, row as int),
    {
        let turn_player = Counter::PlayerCounter(self.turn);
        if self.vertical_check(column, row) {
            return true;
        }
        // Horizontal check (W-E)
        if efficient_check(self, column, row, 1, 0, turn_player) {
            return true;
        }
        // Diagonal check (NW-SE)
        if efficient_check(self, column, row, 1, -1, turn_player) {
            return true;
        }
        // Diagonal check (SW-NE)
        if efficient_check(self, column, row, 1, 1, turn_player) {
            return true;
        }
        false
    }

    /// Whether placing a counter at height `row` fills the last open cell of
    /// a board that is not yet full.
    fn drawing_move(&self, row: usize) -> (res: bool)
        requires
            row < 6,
            forall|c: int| 0 <= c < 7 ==> #[trigger] height_of(*self, c) <= 6,
            sum_heights(self.top_spot@, 7) < 42,
            exists|mc: int| 0 <= mc < 7 && #[trigger] height_of(*self, mc) == row as int,
        ensures
            res == (sum_heights(self.top_spot@, 7) == 41),
    {
        if row != BOARD_HEIGHT - 1 {
            proof {
                let mc = choose|mc: int|
                    0 <= mc < 7 && #[trigger] height_of(*self, mc) == row as int;
                assert forall|c: int| 0 <= c < self.top_spot@.len() implies #[trigger] (
                self.top_spot@[c] as int) <= 6 by {
                    assert(height_of(*self, c) <= 6);
                }
                lemma_sum_heights_one_column(self.top_spot@, mc, 7);
                assert(self.top_spot@[mc] as int == row as int);
                assert(sum_heights(self.top_spot@, 7) <= 36 + row);
            }
            return false;
        }
        let mut total: usize = 0;
        let mut c: usize = 0;
        while c < BOARD_WIDTH
            invariant
                c <= 7,
                forall|k: int| 0 <= k < 7 ==> #[trigger] height_of(*self, k) <= 6,
                total as int == sum_heights(self.top_spot@, c as int),
                total <= 6 * c,
            decreases 7 - c,
        {
            proof {
                assert(height_of(*self, c as int) <= 6);
            }
            total += self.top_spot[c];
            c += 1;
        }
        total >= BOARD_WIDTH * BOARD_HEIGHT - 1
    }

    /// Validate and apply one move. The checks run in order before any
    /// change: outcome already decided, mover out of turn, column off the
    /// board, column full. On success the counter lands at the column's
    /// current height, the height and the turn advance, and the outcome is
    /// set exactly when the move completes a line of four (a win for the
    /// mover) or fills the grid (a draw).
    pub fn make_move(&mut self, player_move: PlayerMove) -> (result: Result<(), MoveError>)
        requires
            old(self).wf(),
        ensures
            final(self).wf(),
            (result is Ok) == move_ok(*old(self), player_move.player, player_move.column as int),
            result is Ok ==> move_result(
                *old(self),
                *final(self),
                player_move.player,
                player_move.column as int,
            ),
            result is Err ==> *final(self) == *old(self),
            (result matches Err(e) && e == MoveError::GameOver) <==> old(self).winner
                != Winner::NoWinner,
            (result matches Err(e) && e == MoveError::NotYourTurn) <==> (old(self).winner
                == Winner::NoWinner && player_move.player != old(self).turn),
            (result matches Err(e) && e == MoveError::InvalidColumn) <==> (old(self).winner
                == Winner::NoWinner && player_move.player == old(self).turn && player_move.column
                >= 7),
            (result matches Err(e) && e == MoveError::ColumnFull) <==> (old(self).winner
                == Winner::NoWinner && player_move.player == old(self).turn && player_move.column
                < 7 && height_of(*old(self), player_move.column as int) >= 6),
    {
        if self.winner != Winner::NoWinner {
            return Err(MoveError::GameOver);
        }
        if player_move.player != self.turn {
            return Err(MoveError::NotYourTurn);
        }
        if player_move.column >= BOARD_WIDTH {
            return Err(MoveError::InvalidColumn);
        }

        let spot = self.top_spot[player_move.column];

        if spot >= BOARD_HEIGHT {
            return Err(MoveError::ColumnFull);
        }

        let ghost b0 = *self;
        let ghost col = player_move.column as int;
        let ghost row = spot as int;
        let ghost p = player_move.player;

        // place the counter first; the win scan reads it in place
        let mut column_cells = self.matrix[player_move.column];
        column_cells[spot] = Counter::PlayerCounter(player_move.player);
        self.matrix[player_move.column] = column_cells;

        proof {
            assert(cell(*self, col, row) == Counter::PlayerCounter(p));
            assert forall|x: int, y: int| in_grid(x, y) && !(x == col && y == row)
                implies #[trigger] cell(*self, x, y) == cell(b0, x, y) by {}
            assert forall|cx: int| 0 <= cx < 7 implies #[trigger] height_of(*self, cx) <= 6 by {
                assert(height_of(b0, cx) <= 6);
            }
            assert(height_of(*self, col) == row);
            assert forall|y: int| row < y < 6 implies #[trigger] cell(*self, col, y)
                == Counter::NoCounter by {
                assert(cell(b0, col, y) == Counter::NoCounter);
            }
        }

        let won = self.winning_move(player_move.column, spot);
        let drew = if won {
            false
        } else {
            self.drawing_move(spot)
        };

        let ghost b_mid = *self;

        self.top_spot[player_move.column] = spot + 1;
        self.turn = self.turn.other();
        if won {
            self.winner = Winner::WinningPlayer(player_move.player);
        } else if drew {
            self.winner = Winner::Draw;
        }

        proof {
            let b1 = *self;
            let q = p.spec_other();
            // cells and heights relate pointwise to the old board
            assert(b1.top_spot@ == b0.top_spot@.update(col, (spot + 1) as usize));
            lemma_sum_heights_update(b0.top_spot@, col, (spot + 1) as usize, 7);
            assert(sum_heights(b1.top_spot@, 7) == sum_heights(b0.top_spot@, 7) + 1);
            assert forall|x: int, y: int| in_grid(x, y) && !(x == col && y == row)
                implies #[trigger] cell(b1, x, y) == cell(b0, x, y) by {}
            assert(cell(b1, col, row) == Counter::PlayerCounter(p));
            assert forall|cx: int| 0 <= cx < 7 implies #[trigger] height_of(b1, cx) == (if cx
                == col {
                height_of(b0, cx) + 1
            } else {
                height_of(b0, cx)
            }) by {}
            assert forall|cx: int, rx: int| in_grid(cx, rx) implies (#[trigger] cell(b1, cx, rx))
                == (if cx == col && rx == height_of(b0, col) {
                Counter::PlayerCounter(p)
            } else {
                cell(b0, cx, rx)
            }) by {}

            // the mover's lines: localized to the placed cell
            assert forall|x: int, y: int|
                in_grid(x, y) implies (#[trigger] cell_is(b_mid, p, x, y) == #[trigger] cell_is(
                b1,
                p,
                x,
                y,
            )) by {}
            lemma_four_congruence(b_mid, b1, p);
            assert(won == wins_at(b1, p, col, row));
            lemma_win_localized(b0, b1, p, col, row);
            assert(has_four(b1, p) == won);

            // the opponent's lines: unchanged by the move
            assert forall|x: int, y: int|
                in_grid(x, y) implies (#[trigger] cell_is(b0, q, x, y) == #[trigger] cell_is(
                b1,
                q,
                x,
                y,
            )) by {
                if x == col && y == row {
                    assert(cell(b0, x, y) == Counter::NoCounter);
                }
            }
            lemma_four_congruence(b0, b1, q);
            assert(!has_four(b1, q));

            // the well-formedness of the new board, piece by piece
            assert forall|cx: int| 0 <= cx < 7 implies #[trigger] height_of(b1, cx) <= 6 by {
                assert(height_of(b0, cx) <= 6);
            }
            assert forall|cx: int, rx: int| in_grid(cx, rx) implies ((#[trigger] cell(b1, cx, rx))
                == Counter::NoCounter <==> rx >= height_of(b1, cx)) by {
                assert(cell(b0, cx, rx) == Counter::NoCounter <==> rx >= height_of(b0, cx));
                assert(height_of(b1, cx) == if cx == col {
                    height_of(b0, cx) + 1
                } else {
                    height_of(b0, cx)
                });
            }
            assert(p == Player::Player1 || p == Player::Player2);
            if won {
                assert(b1.winner == Winner::WinningPlayer(p));
                assert(has_four(b1, p));
            } else if drew {
                assert(sum_heights(b1.top_spot@, 7) == 42);
                assert(b1.winner == Winner::Draw);
            } else {
                assert(sum_heights(b0.top_spot@, 7) != 41);
                assert(sum_heights(b0.top_spot@, 7) < 42);
                assert(sum_heights(b1.top_spot@, 7) < 42);
                assert(!has_four(b1, p));
                assert(!has_four(b1, q));
                assert(!has_four(b1, Player::Player1) && !has_four(b1, Player::Player2));
            }
        }

        Ok(())
    }
}

/// The number of occupied cells in column c among the rows below upto.
pub open spec fn column_counters(b: Board, c: int, upto: int) -> int
    decreases upto,
{
    if upto <= 0 {
        0
    } else {
        column_counters(b, c, upto - 1) + if cell(b, c, upto - 1) != Counter::NoCounter {
            1int
        } else {
            0int
        }
    }
}

/// The number of occupied cells in the first n columns.
pub open spec fn grid_counters(b: Board, n: int) -> int
    decreases n,
{
    if n <= 0 {
        0
    } else {
        grid_counters(b, n - 1) + column_counters(b, n - 1, 6)
    }
}

/// In a well-formed board one column's occupied cells, counted up to any row,
/// are exactly the rows below its fill height.
proof fn lemma_column_counters(b: Board, c: int, upto: int)
    requires
        b.wf(),
        0 <= c < 7,
        0 <= upto <= 6,
    ensures
        column_counters(b, c, upto) == if upto <= height_of(b, c) {
            upto
        } else {
            height_of(b, c)
        },
    decreases upto,
{
    if upto > 0 {
        lemma_column_counters(b, c, upto - 1);
        assert(cell(b, c, upto - 1) == Counter::NoCounter <==> upto - 1 >= height_of(b, c));
    }
}

/// On every well-formed board the sum of the per-column fill heights equals
/// the number of occupied cells: heights never drift from the grid contents.
pub proof fn lemma_heights_count_counters(b: Board)
    requires
        b.wf(),
    ensures
        grid_counters(b, 7) == sum_heights(b.top_spot@, 7),
{
    lemma_grid_counters_prefix(b, 7);
}

/// Each prefix of columns has as many counters as the same prefix of heights.
proof fn lemma_grid_counters_prefix(b: Board, n: int)
    requires
        b.wf(),
        0 <= n <= 7,
    ensures
        grid_counters(b, n) == sum_heights(b.top_spot@, n),
    decreases n,
{
    if n > 0 {
        lemma_grid_counters_prefix(b, n - 1);
        lemma_column_counters(b, n - 1, 6);
        assert(height_of(b, n - 1) <= 6);
    }
}

/// An accepted move never lowers any column: each fill height is
/// non-decreasing over a game.
pub proof fn lemma_move_heights_nondecreasing(b0: Board, b1: Board, p: Player, col: int)
    requires
        move_result(b0, b1, p, col),
        0 <= col < 7,
    ensures
        forall|c: int| 0 <= c < 7 ==> #[trigger] height_of(b1, c) >= height_of(b0, c),
{
}

} // verus!
