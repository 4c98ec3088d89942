use vstd::prelude::*;

verus! {

/// A 3x3 board: 0 is an empty cell, 1 a mark of player X, 2 of player O.
pub type Board = [[i8; 3]; 3];

/// The board as rows of cells.
pub open spec fn board_view(b: Board) -> Seq<Seq<i8>> {
    b@.map_values(|row: [i8; 3]| row@)
}

/// Player `p` holds all of row `i`.
pub open spec fn row_full(b: Seq<Seq<i8>>, p: i8, i: int) -> bool {
    b[i][0] == p && b[i][1] == p && b[i][2] == p
}

/// Player `p` holds all of column `j`.
pub open spec fn column_full(b: Seq<Seq<i8>>, p: i8, j: int) -> bool {
    b[0][j] == p && b[1][j] == p && b[2][j] == p
}

/// Player `p` holds a whole row, a whole column or a whole diagonal.
pub open spec fn wins(b: Seq<Seq<i8>>, p: i8) -> bool {
    ||| row_full(b, p, 0)
    ||| row_full(b, p, 1)
    ||| row_full(b, p, 2)
    ||| column_full(b, p, 0)
    ||| column_full(b, p, 1)
    ||| column_full(b, p, 2)
    ||| (b[0][0] == p && b[1][1] == p && b[2][2] == p)
    ||| (b[0][2] == p && b[1][1] == p && b[2][0] == p)
}

/// No cell of the board is empty.
pub open spec fn board_full(b: Seq<Seq<i8>>) -> bool {
    forall|i: int, j: int| 0 <= i < 3 && 0 <= j < 3 ==> b[i][j] != 0
}

/// A 3x3 board of rows.
pub open spec fn well_shaped(b: Seq<Seq<i8>>) -> bool {
    b.len() == 3 && forall|i: int| 0 <= i < 3 ==> #[trigger] b[i].len() == 3
}

/// `b` with `v` written at row `i`, column `j`.
pub open spec fn set_cell(b: Seq<Seq<i8>>, i: int, j: int, v: i8) -> Seq<Seq<i8>> {
    b.update(i, b[i].update(j, v))
}

/// Row and column of the cell that the input number `k` (1 to 9) names,
/// counting left to right and top to bottom.
pub open spec fn cell_of_input(k: int) -> (int, int) {
    ((k - 1) / 3, (k - 1) % 3)
}

proof fn lemma_board_view_shape(b: Board)
    ensures
        well_shaped(board_view(b)),
        forall|i: int, j: int|
            0 <= i < 3 && 0 <= j < 3 ==> #[trigger] board_view(b)[i][j] == b[i][j],
{
}

/// Did `player` complete a row, a column or a diagonal?
pub fn did_win(board: Board, player: i8) -> (r: bool)
    ensures
        r == wins(board_view(board), player),
        r == ({
            ||| (board[0][0] == player && board[0][1] == player && board[0][2] == player)
            ||| (board[1][0] == player && board[1][1] == player && board[1][2] == player)
            ||| (board[2][0] == player && board[2][1] == player && board[2][2] == player)
            ||| (board[0][0] == player && board[1][0] == player && board[2][0] == player)
            ||| (board[0][1] == player && board[1][1] == player && board[2][1] == player)
            ||| (board[0][2] == player && board[1][2] == player && board[2][2] == player)
            ||| (board[0][0] == player && board[1][1] == player && board[2][2] == player)
            ||| (board[0][2] == player && board[1][1] == player && board[2][0] == player)
        }),
{
    proof {
        lemma_wins_lines(board_view(board), player);
        lemma_board_view_shape(board);
    }
    let mut i: usize = 0;
    while i < 3
        invariant
            0 <= i <= 3,
            forall|k: int|
                0 <= k < i ==> !row_full(board_view(board), player, k) && !column_full(
                    board_view(board),
                    player,
                    k,
                ),
        decreases 3 - i,
    {
        proof {
            lemma_board_view_shape(board);
        }
        if board[i][0] == player && board[i][1] == player && board[i][2] == player {
            return true;
        }
        if board[0][i] == player && board[1][i] == player && board[2][i] == player {
            return true;
        }
        i = i + 1;
    }
    if board[0][0] == player && board[1][1] == player && board[2][2] == player {
        return true;
    }
    if board[0][2] == player && board[1][1] == player && board[2][0] == player {
        return true;
    }
    assert(!row_full(board_view(board), player, 2));
    assert(!column_full(board_view(board), player, 2));
    false
}

/// Is every cell taken?
pub fn is_draw(board: Board) -> (r: bool)
    ensures
        r == board_full(board_view(board)),
        r == (forall|i: int, j: int| 0 <= i < 3 && 0 <= j < 3 ==> board[i][j] != 0),
        (exists|i: int, j: int| 0 <= i < 3 && 0 <= j < 3 && board[i][j] == 0) ==> !r,
{
    proof {
        lemma_board_view_shape(board);
    }
    let mut i: usize = 0;
    while i < 3
        invariant
            0 <= i <= 3,
            forall|a: int, c: int| 0 <= a < i && 0 <= c < 3 ==> board_view(board)[a][c] != 0,
        decreases 3 - i,
    {
        proof {
            lemma_board_view_shape(board);
        }
        let mut j: usize = 0;
        while j < 3
            invariant
                0 <= i < 3,
                0 <= j <= 3,
                forall|a: int, c: int|
                    0 <= a < i && 0 <= c < 3 ==> board_view(board)[a][c] != 0,
                forall|c: int| 0 <= c < j ==> board_view(board)[i as int][c] != 0,
            decreases 3 - j,
        {
            proof {
                lemma_board_view_shape(board);
            }
            if board[i][j] == 0 {
                assert(board_view(board)[i as int][j as int] == 0);
                return false;
            }
            j = j + 1;
        }
        i = i + 1;
    }
    proof {
        lemma_board_view_shape(board);
        assert forall|a: int, c: int| 0 <= a < 3 && 0 <= c < 3 implies board[a][c] != 0 by {
            assert(board_view(board)[a][c] != 0);
        }
    }
    true
}

/// What a cell of the board shows: its number (1 to 9) while empty, else
/// the mark that fills it.
#[derive(PartialEq, Eq, Structural, Clone, Copy, Debug)]
pub enum CellMark {
    Free(u8),
    X,
    O,
}

/// The mark shown at row `i`, column `j`: a 0 shows the cell's number
/// `3 * i + j + 1`, a 1 shows X, anything else O.
pub fn cell_mark(board: Board, i: usize, j: usize) -> (m: CellMark)
    requires
        i < 3,
        j < 3,
    ensures
        board_view(board)[i as int][j as int] == 0 ==> m == CellMark::Free((3 * i + j + 1) as u8),
        board_view(board)[i as int][j as int] == 1 ==> m == CellMark::X,
        board_view(board)[i as int][j as int] != 0 && board_view(board)[i as int][j as int] != 1
            ==> m == CellMark::O,
{
    proof {
        lemma_board_view_shape(board);
    }
    if board[i][j] == 0 {
        CellMark::Free((i * 3 + j + 1) as u8)
    } else if board[i][j] == 1 {
        CellMark::X
    } else {
        CellMark::O
    }
}

/// The symbol of a player: X for player 1, O for any other.
pub fn player_symbol(player: i8) -> (c: char)
    ensures
        c == (if player == 1 { 'X' } else { 'O' }),
{
    if player == 1 {
        'X'
    } else {
        'O'
    }
}

/// The player whose turn comes after `player`'s.
pub fn next_player(player: i8) -> (q: i8)
    ensures
        q == (if player == 1 { 2i8 } else { 1i8 }),
{
    if player == 1 {
        2
    } else {
        1
    }
}

/// What became of an input number.
#[derive(PartialEq, Eq, Structural, Clone, Copy, Debug)]
pub enum MoveResult {
    /// The number is not between 1 and 9.
    OutOfRange,
    /// The cell that it names is already taken.
    Taken,
    /// The player's mark now fills the cell.
    Placed,
}

/// Puts `player`'s mark in the cell that `input` names, if the number is
/// between 1 and 9 and the cell is empty; otherwise leaves the board as it is.
pub fn place_mark(board: &mut Board, player: i8, input: i8) -> (r: MoveResult)
    ensures
        (input < 1 || input > 9) <==> r == MoveResult::OutOfRange,
        1 <= input <= 9 ==> {
            let (i, j) = cell_of_input(input as int);
            &&& (board_view(*old(board))[i][j] != 0 <==> r == MoveResult::Taken)
            &&& (r == MoveResult::Placed ==> board_view(*final(board)) == set_cell(
                board_view(*old(board)),
                i,
                j,
                player,
            ))
        },
        r != MoveResult::Placed ==> *final(board) == *old(board),
        r == MoveResult::Placed ==> forall|i: int, j: int|
            0 <= i < 3 && 0 <= j < 3 ==> #[trigger] final(board)[i][j] == (if 3 * i + j + 1
                == input {
                player
            } else {
                old(board)[i][j]
            }),
        1 <= input <= 9 ==> (r == MoveResult::Taken <==> exists|i: int, j: int|
            0 <= i < 3 && 0 <= j < 3 && 3 * i + j + 1 == input && old(board)[i][j] != 0),
{
    proof {
        lemma_board_view_shape(*board);
        if 1 <= input <= 9 {
            lemma_cell_of_input(input as int);
        }
    }
    if input < 1 || input > 9 {
        return MoveResult::OutOfRange;
    }
    let i = ((input - 1) / 3) as usize;
    let j = ((input - 1) % 3) as usize;
    if board[i][j] != 0 {
        return MoveResult::Taken;
    }
    let mut row = board[i];
    row[j] = player;
    board[i] = row;
    proof {
        lemma_board_view_shape(*board);
        assert(board_view(*board) =~= set_cell(board_view(*old(board)), i as int, j as int, player));
    }
    MoveResult::Placed
}

/// How the game stands after a mark was placed.
#[derive(PartialEq, Eq, Structural, Clone, Copy, Debug)]
pub enum TurnOutcome {
    /// The player who moved has won.
    Won,
    /// Every cell is taken and nobody won.
    Draw,
    /// The game goes on with this player's turn.
    Next(i8),
}

/// The outcome after `player` moved: a win is checked before a draw.
pub fn turn_outcome(board: Board, player: i8) -> (o: TurnOutcome)
    ensures
        wins(board_view(board), player) <==> o == TurnOutcome::Won,
        !wins(board_view(board), player) ==> (board_full(board_view(board)) <==> o
            == TurnOutcome::Draw),
        !wins(board_view(board), player) && !board_full(board_view(board)) ==> o
            == TurnOutcome::Next(if player == 1 { 2i8 } else { 1i8 }),
{
    if did_win(board, player) {
        TurnOutcome::Won
    } else if is_draw(board) {
        TurnOutcome::Draw
    } else {
        TurnOutcome::Next(next_player(player))
    }
}

/// Filling an empty cell never takes a win away: a player who has three in
/// a line still has them after any further mark.
pub proof fn lemma_win_persists(b: Seq<Seq<i8>>, p: i8, i: int, j: int, q: i8)
    requires
        well_shaped(b),
        0 <= i < 3,
        0 <= j < 3,
        b[i][j] == 0,
        p != 0,
        wins(b, p),
    ensures
        wins(set_cell(b, i, j, q), p),
{
    let b2 = set_cell(b, i, j, q);
    assert forall|x: int, y: int| 0 <= x < 3 && 0 <= y < 3 && b[x][y] == p implies b2[x][y] == p by {
        if x == i {
            assert(b2[x] == b[i].update(j, q));
        }
    }
}

/// Only the player who moves can win by that move: a mark of `q` does not
/// complete a line of any other player.
pub proof fn lemma_only_mover_can_win(b: Seq<Seq<i8>>, p: i8, i: int, j: int, q: i8)
    requires
        well_shaped(b),
        0 <= i < 3,
        0 <= j < 3,
        p != q,
        !wins(b, p),
    ensures
        !wins(set_cell(b, i, j, q), p),
{
    let b2 = set_cell(b, i, j, q);
    assert forall|x: int, y: int| 0 <= x < 3 && 0 <= y < 3 && b2[x][y] == p implies b[x][y] == p by {
        if x == i {
            assert(b2[x] == b[i].update(j, q));
        }
    }
}

/// The turn passes back and forth between players 1 and 2.
pub proof fn lemma_players_alternate(p: i8)
    requires
        p == 1 || p == 2,
    ensures
        (if p == 1 { 2i8 } else { 1i8 }) != p,
        (if (if p == 1 { 2i8 } else { 1i8 }) == 1 { 2i8 } else { 1i8 }) == p,
{
}

/// The eight lines of the board: player `p` has won exactly when it holds
/// all three cells of a row, of a column or of a diagonal.
pub proof fn lemma_wins_lines(b: Seq<Seq<i8>>, p: i8)
    ensures
        wins(b, p) == ({
            ||| (b[0][0] == p && b[0][1] == p && b[0][2] == p)
            ||| (b[1][0] == p && b[1][1] == p && b[1][2] == p)
            ||| (b[2][0] == p && b[2][1] == p && b[2][2] == p)
            ||| (b[0][0] == p && b[1][0] == p && b[2][0] == p)
            ||| (b[0][1] == p && b[1][1] == p && b[2][1] == p)
            ||| (b[0][2] == p && b[1][2] == p && b[2][2] == p)
            ||| (b[0][0] == p && b[1][1] == p && b[2][2] == p)
            ||| (b[0][2] == p && b[1][1] == p && b[2][0] == p)
        }),
{
}

/// The board mirrored along its main diagonal: rows become columns.
pub open spec fn transposed(b: Seq<Seq<i8>>) -> Seq<Seq<i8>> {
    Seq::new(3, |i: int| Seq::new(3, |j: int| b[j][i]))
}

/// The board turned upside down: the last row comes first.
pub open spec fn flipped(b: Seq<Seq<i8>>) -> Seq<Seq<i8>> {
    Seq::new(3, |i: int| b[2 - i])
}

/// Who has won does not change when the board is mirrored along its
/// diagonal or turned upside down: every row, column and diagonal counts
/// alike.
pub proof fn lemma_wins_symmetric(b: Seq<Seq<i8>>, p: i8)
    requires
        well_shaped(b),
    ensures
        wins(transposed(b), p) == wins(b, p),
        wins(flipped(b), p) == wins(b, p),
{
    lemma_wins_lines(b, p);
    lemma_wins_lines(transposed(b), p);
    lemma_wins_lines(flipped(b), p);
}

/// A draw is a board on which each of the nine cells is taken; a single
/// empty cell, wherever it is, means the game goes on.
pub proof fn lemma_full_cells(b: Seq<Seq<i8>>)
    ensures
        board_full(b) == (b[0][0] != 0 && b[0][1] != 0 && b[0][2] != 0 && b[1][0] != 0 && b[1][1]
            != 0 && b[1][2] != 0 && b[2][0] != 0 && b[2][1] != 0 && b[2][2] != 0),
        forall|i: int, j: int| 0 <= i < 3 && 0 <= j < 3 && b[i][j] == 0 ==> !board_full(b),
{
    if b[0][0] != 0 && b[0][1] != 0 && b[0][2] != 0 && b[1][0] != 0 && b[1][1] != 0 && b[1][2] != 0
        && b[2][0] != 0 && b[2][1] != 0 && b[2][2] != 0 {
        assert forall|i: int, j: int| 0 <= i < 3 && 0 <= j < 3 implies b[i][j] != 0 by {
            if i == 0 {
                if j == 0 {
                } else if j == 1 {
                } else {
                }
            } else if i == 1 {
                if j == 0 {
                } else if j == 1 {
                } else {
                }
            } else {
                if j == 0 {
                } else if j == 1 {
                } else {
                }
            }
        }
    }
}

/// The input number `k` names the cell that the board shows as `k`: the
/// cell at row `i`, column `j` is shown as `3 * i + j + 1`.
pub proof fn lemma_cell_of_input(k: int)
    requires
        1 <= k <= 9,
    ensures
        0 <= cell_of_input(k).0 < 3,
        0 <= cell_of_input(k).1 < 3,
        3 * cell_of_input(k).0 + cell_of_input(k).1 + 1 == k,
{
}

} // verus!
