//! The board, its mathematical model, and the legality checker.

use vstd::prelude::*;

verus! {

/// Number of rows and of columns of a board.
pub const SIZE: usize = 9;

/// The value of a cell that holds no digit.
pub const EMPTY_CELL: u8 = 0;

/// A 9x9 grid; 0 marks an empty cell, 1 to 9 a placed digit.
pub type Board = [[u8; 9]; 9];

/// The value at row `r`, column `c`.
pub open spec fn cell(b: Board, r: int, c: int) -> u8 {
    b@[r]@[c]
}

pub open spec fn on_board(r: int, c: int) -> bool {
    0 <= r < 9 && 0 <= c < 9
}

/// Two distinct cells that share a row, a column or a 3x3 sub-block.
pub open spec fn peers(r1: int, c1: int, r2: int, c2: int) -> bool {
    &&& (r1 != r2 || c1 != c2)
    &&& (r1 == r2 || c1 == c2 || (r1 / 3 == r2 / 3 && c1 / 3 == c2 / 3))
}

/// Every cell holds 0 or a digit 1 to 9.
pub open spec fn well_formed(b: Board) -> bool {
    forall|r: int, c: int| on_board(r, c) ==> #[trigger] cell(b, r, c) <= 9
}

/// No cell is empty.
pub open spec fn complete(b: Board) -> bool {
    forall|r: int, c: int| on_board(r, c) ==> #[trigger] cell(b, r, c) != 0
}

/// No digit occurs twice in a row, a column or a sub-block.
pub open spec fn legal(b: Board) -> bool {
    forall|r1: int, c1: int, r2: int, c2: int|
        on_board(r1, c1) && on_board(r2, c2) && peers(r1, c1, r2, c2) && cell(b, r1, c1) != 0
            ==> #[trigger] cell(b, r1, c1) != #[trigger] cell(b, r2, c2)
}

/// `d` already stands in some other cell of the row, column or sub-block of `(r, c)`.
pub open spec fn clashes(b: Board, r: int, c: int, d: u8) -> bool {
    exists|r2: int, c2: int| on_board(r2, c2) && peers(r, c, r2, c2) && #[trigger] cell(b, r2, c2) == d
}

/// `s` keeps every digit that `b` holds.
pub open spec fn extends(s: Board, b: Board) -> bool {
    forall|r: int, c: int| on_board(r, c) && cell(b, r, c) != 0 ==> #[trigger] cell(s, r, c) == cell(b, r, c)
}

/// Some complete legal board keeps every digit of `b`.
pub open spec fn solvable(b: Board) -> bool {
    exists|s: Board| well_formed(s) && complete(s) && legal(s) && #[trigger] extends(s, b)
}

/// Placing `d` where it clashes with nothing keeps a legal board legal.
pub(crate) proof fn lemma_place_keeps_legal(b1: Board, b2: Board, row: int, col: int, d: u8)
    requires
        on_board(row, col),
        legal(b1),
        !clashes(b1, row, col, d),
        cell(b2, row, col) == d,
        forall|r: int, c: int| on_board(r, c) && (r != row || c != col)
            ==> #[trigger] cell(b2, r, c) == cell(b1, r, c),
    ensures
        legal(b2),
{
    assert forall|r1: int, c1: int, r2: int, c2: int|
        on_board(r1, c1) && on_board(r2, c2) && peers(r1, c1, r2, c2) && cell(b2, r1, c1) != 0
            implies #[trigger] cell(b2, r1, c1) != #[trigger] cell(b2, r2, c2) by {
        if r1 == row && c1 == col {
            assert(cell(b1, r2, c2) != d);
        } else if r2 == row && c2 == col {
            assert(peers(row, col, r1, c1));
            assert(cell(b1, r1, c1) != d);
        } else {
            assert(cell(b1, r1, c1) != cell(b1, r2, c2));
        }
    }
}

/// Whether `num` may be placed at `(row, col)`: true exactly when no other cell of
/// the same row, column or 3x3 sub-block already holds it. The value in
/// `(row, col)` itself is not looked at.
pub fn is_valid(board: &Board, row: usize, col: usize, num: u8) -> (ok: bool)
    requires
        row < 9,
        col < 9,
        1 <= num <= 9,
    ensures
        ok == !clashes(*board, row as int, col as int, num),
{
    let mut i: usize = 0;
    while i < SIZE
        invariant
            i <= 9,
            row < 9,
            forall|j: int| 0 <= j < i && j != col ==> #[trigger] cell(*board, row as int, j) != num,
        decreases 9 - i,
    {
        if i != col && board[row][i] == num {
            assert(peers(row as int, col as int, row as int, i as int));
            assert(cell(*board, row as int, i as int) == num);
            return false;
        }
        i += 1;
    }
    let mut i: usize = 0;
    while i < SIZE
        invariant
            i <= 9,
            col < 9,
            forall|j: int| 0 <= j < i && j != row ==> #[trigger] cell(*board, j, col as int) != num,
        decreases 9 - i,
    {
        if i != row && board[i][col] == num {
            assert(peers(row as int, col as int, i as int, col as int));
            assert(cell(*board, i as int, col as int) == num);
            return false;
        }
        i += 1;
    }
    let start_row: usize = (row / 3) * 3;
    let start_col: usize = (col / 3) * 3;
    let mut i: usize = 0;
    while i < 3
        invariant
            i <= 3,
            row < 9,
            col < 9,
            start_row == (row / 3) * 3,
            start_col == (col / 3) * 3,
            forall|a: int, e: int|
                0 <= a < i && 0 <= e < 3 && (start_row + a != row || start_col + e != col)
                    ==> #[trigger] cell(*board, start_row + a, start_col + e) != num,
        decreases 3 - i,
    {
        let mut j: usize = 0;
        while j < 3
            invariant
                i < 3,
                j <= 3,
                row < 9,
                col < 9,
                start_row == (row / 3) * 3,
                start_col == (col / 3) * 3,
                forall|a: int, e: int|
                    ((0 <= a < i && 0 <= e < 3) || (a == i && 0 <= e < j))
                        && (start_row + a != row || start_col + e != col)
                        ==> #[trigger] cell(*board, start_row + a, start_col + e) != num,
            decreases 3 - j,
        {
            let r = start_row + i;
            let c = start_col + j;
            if (r != row || c != col) && board[r][c] == num {
                assert(peers(row as int, col as int, r as int, c as int));
                assert(cell(*board, r as int, c as int) == num);
                return false;
            }
            j += 1;
        }
        i += 1;
    }
    assert forall|r2: int, c2: int|
        on_board(r2, c2) && peers(row as int, col as int, r2, c2) implies #[trigger] cell(*board, r2, c2) != num by {
        if r2 == row {
        } else if c2 == col {
        } else {
            let a = r2 - start_row;
            let e = c2 - start_col;
            assert(0 <= a < 3 && 0 <= e < 3);
            assert(cell(*board, start_row + a, start_col + e) != num);
        }
    }
    true
}

} // verus!
