//! Depth-first backtracking solver.

use vstd::prelude::*;

use crate::board::{
    cell, clashes, complete, extends, is_valid, lemma_place_keeps_legal, legal, on_board, peers,
    solvable, well_formed, Board, EMPTY_CELL, SIZE,
};

verus! {

/// Number of zeros in `s`.
pub open spec fn zeros(s: Seq<u8>) -> nat
    decreases s.len(),
{
    if s.len() == 0 {
        0
    } else {
        zeros(s.drop_last()) + if s.last() == 0 { 1nat } else { 0nat }
    }
}

/// Number of empty cells in the first `n` rows.
pub open spec fn empties_in_rows(b: Board, n: int) -> nat
    decreases n,
{
    if n <= 0 {
        0
    } else {
        empties_in_rows(b, n - 1) + zeros(b@[n - 1]@)
    }
}

/// Number of empty cells of the board.
pub open spec fn empties(b: Board) -> nat {
    empties_in_rows(b, 9)
}

proof fn lemma_zeros_fill(s: Seq<u8>, i: int, v: u8)
    requires
        0 <= i < s.len(),
        s[i] == 0,
        v != 0,
    ensures
        zeros(s.update(i, v)) + 1 == zeros(s),
    decreases s.len(),
{
    let t = s.update(i, v);
    if i == s.len() - 1 {
        assert(t.drop_last() =~= s.drop_last());
    } else {
        assert(t.drop_last() =~= s.drop_last().update(i, v));
        lemma_zeros_fill(s.drop_last(), i, v);
    }
}

/// Filling the empty cell `(row, col)` with a digit removes one empty cell.
proof fn lemma_empties_fill(b1: Board, b2: Board, row: int, col: int, n: int)
    requires
        on_board(row, col),
        0 <= n <= 9,
        cell(b1, row, col) == 0,
        b2@[row]@ == b1@[row]@.update(col, cell(b2, row, col)),
        cell(b2, row, col) != 0,
        forall|r: int| 0 <= r < 9 && r != row ==> b2@[r] == b1@[r],
    ensures
        empties_in_rows(b2, n) + (if n > row { 1nat } else { 0nat }) == empties_in_rows(b1, n),
    decreases n,
{
    if n > 0 {
        lemma_empties_fill(b1, b2, row, col, n - 1);
        if n - 1 == row {
            lemma_zeros_fill(b1@[row]@, col, cell(b2, row, col));
        }
    }
}

/// The first empty cell in row-major order, if any.
pub fn first_empty(board: &Board) -> (found: Option<(usize, usize)>)
    ensures
        match found {
            Some((r, c)) => {
                &&& r < 9
                &&& c < 9
                &&& cell(*board, r as int, c as int) == 0
                &&& forall|r2: int, c2: int|
                    on_board(r2, c2) && (r2 < r || (r2 == r && c2 < c))
                        ==> #[trigger] cell(*board, r2, c2) != 0
            },
            None => complete(*board),
        },
{
    let mut row: usize = 0;
    while row < SIZE
        invariant
            row <= 9,
            forall|r2: int, c2: int| on_board(r2, c2) && r2 < row ==> #[trigger] cell(*board, r2, c2) != 0,
        decreases 9 - row,
    {
        let mut col: usize = 0;
        while col < SIZE
            invariant
                row < 9,
                col <= 9,
                forall|r2: int, c2: int|
                    on_board(r2, c2) && (r2 < row || (r2 == row && c2 < col))
                        ==> #[trigger] cell(*board, r2, c2) != 0,
            decreases 9 - col,
        {
            if board[row][col] == EMPTY_CELL {
                return Some((row, col));
            }
            col += 1;
        }
        row += 1;
    }
    None
}

fn set_cell(board: &mut Board, row: usize, col: usize, v: u8)
    requires
        row < 9,
        col < 9,
    ensures
        cell(*final(board), row as int, col as int) == v,
        final(board)@[row as int]@ == old(board)@[row as int]@.update(col as int, v),
        forall|r: int| 0 <= r < 9 && r != row ==> final(board)@[r] == old(board)@[r],
        forall|r: int, c: int| on_board(r, c) && (r != row || c != col)
            ==> #[trigger] cell(*final(board), r, c) == cell(*old(board), r, c),
{
    board[row][col] = v;
}

/// `f` completes `b`: it keeps every digit of `b`, holds a digit everywhere,
/// and each cell that `b` left empty holds a digit that no other cell of its
/// row, column or sub-block holds.
pub open spec fn admissible(f: Board, b: Board) -> bool {
    &&& well_formed(f)
    &&& complete(f)
    &&& extends(f, b)
    &&& forall|r: int, c: int|
        on_board(r, c) && cell(b, r, c) == 0 ==> !clashes(f, r, c, #[trigger] cell(f, r, c))
}

/// The value of the `k`-th cell in row-major order.
pub open spec fn flat(b: Board, k: int) -> u8 {
    cell(b, k / 9, k % 9)
}

/// `a` comes no later than `b` when the cells are read in row-major order.
pub open spec fn lex_le(a: Board, b: Board) -> bool {
    ||| forall|k: int| 0 <= k < 81 ==> #[trigger] flat(a, k) == flat(b, k)
    ||| exists|k: int|
        #![trigger flat(a, k)]
        0 <= k < 81 && flat(a, k) < flat(b, k) && forall|j: int| 0 <= j < k ==> #[trigger] flat(a, j) == flat(b, j)
}

proof fn lemma_solution_admissible(s: Board, b: Board)
    requires
        well_formed(s),
        complete(s),
        legal(s),
        extends(s, b),
    ensures
        admissible(s, b),
{
    assert forall|r: int, c: int| on_board(r, c) && cell(b, r, c) == 0 implies !clashes(s, r, c, #[trigger] cell(s, r, c)) by {
        if clashes(s, r, c, cell(s, r, c)) {
            let (r2, c2) = choose|r2: int, c2: int|
                on_board(r2, c2) && peers(r, c, r2, c2) && #[trigger] cell(s, r2, c2) == cell(s, r, c);
            assert(cell(s, r, c) != cell(s, r2, c2));
        }
    }
}

/// A completion of `b` that holds `d` at the empty cell `(row, col)` completes
/// `b` with `d` placed there.
proof fn lemma_admissible_after_place(b: Board, placed: Board, f: Board, row: int, col: int, d: u8)
    requires
        on_board(row, col),
        cell(b, row, col) == 0,
        cell(placed, row, col) == d,
        forall|r: int, c: int| on_board(r, c) && (r != row || c != col)
            ==> #[trigger] cell(placed, r, c) == cell(b, r, c),
        admissible(f, b),
        cell(f, row, col) == d,
    ensures
        admissible(f, placed),
{
    assert forall|r: int, c: int| on_board(r, c) && cell(placed, r, c) != 0 implies #[trigger] cell(f, r, c) == cell(placed, r, c) by {
        if r != row || c != col {
            assert(cell(b, r, c) == cell(placed, r, c));
        }
    }
    assert forall|r: int, c: int| on_board(r, c) && cell(placed, r, c) == 0 implies !clashes(f, r, c, #[trigger] cell(f, r, c)) by {
        assert(cell(b, r, c) == 0);
    }
}

/// A completion of `b` with `d` placed at `(row, col)`, where `d` clashed with
/// nothing, completes `b`.
proof fn lemma_admissible_before_place(b: Board, placed: Board, f: Board, row: int, col: int, d: u8)
    requires
        on_board(row, col),
        cell(b, row, col) == 0,
        1 <= d <= 9,
        !clashes(b, row, col, d),
        cell(placed, row, col) == d,
        forall|r: int, c: int| on_board(r, c) && (r != row || c != col)
            ==> #[trigger] cell(placed, r, c) == cell(b, r, c),
        admissible(f, placed),
    ensures
        admissible(f, b),
{
    assert(cell(f, row, col) == d);
    assert forall|r: int, c: int| on_board(r, c) && cell(b, r, c) != 0 implies #[trigger] cell(f, r, c) == cell(b, r, c) by {
        if r == row && c == col {
        } else {
            assert(cell(placed, r, c) == cell(b, r, c));
        }
    }
    assert forall|r: int, c: int| on_board(r, c) && cell(b, r, c) == 0 implies !clashes(f, r, c, #[trigger] cell(f, r, c)) by {
        if r == row && c == col {
            if clashes(f, r, c, d) {
                let (r2, c2) = choose|r2: int, c2: int|
                    on_board(r2, c2) && peers(r, c, r2, c2) && #[trigger] cell(f, r2, c2) == d;
                if cell(b, r2, c2) != 0 {
                    assert(cell(placed, r2, c2) == cell(b, r2, c2));
                    assert(cell(b, r2, c2) == d);
                } else {
                    assert(cell(placed, r2, c2) == 0);
                    assert(!clashes(f, r2, c2, cell(f, r2, c2)));
                    assert(peers(r2, c2, r, c));
                    assert(cell(f, r, c) == d);
                }
            }
        } else {
            assert(cell(placed, r, c) == 0);
        }
    }
}

/// Two boards that keep the digits of `b`, where every cell before `(row, col)`
/// in row-major order holds a digit, are ordered by their values at `(row, col)`.
proof fn lemma_lex_at(b: Board, a: Board, f: Board, row: int, col: int)
    requires
        on_board(row, col),
        forall|r2: int, c2: int|
            on_board(r2, c2) && (r2 < row || (r2 == row && c2 < col)) ==> #[trigger] cell(b, r2, c2) != 0,
        extends(a, b),
        extends(f, b),
        cell(a, row, col) < cell(f, row, col),
    ensures
        lex_le(a, f),
{
    let k = 9 * row + col;
    assert(k / 9 == row && k % 9 == col);
    assert forall|j: int| 0 <= j < k implies #[trigger] flat(a, j) == flat(f, j) by {
        let (r2, c2) = (j / 9, j % 9);
        assert(on_board(r2, c2) && (r2 < row || (r2 == row && c2 < col)));
        assert(cell(b, r2, c2) != 0);
    }
    assert(flat(a, k) < flat(f, k));
}

/// Completes `board` by depth-first backtracking: the first empty cell in
/// row-major order gets the digits 1 to 9 in turn, each one that the checker
/// accepts is kept while the rest of the board is solved, and undone when that
/// fails.
///
/// It succeeds exactly when the board has an admissible completion: one that
/// keeps its digits and gives each empty cell a digit held by no other cell of
/// its row, column or sub-block. The board it hands back is then the first such
/// completion in row-major order, and a board that was legal is still legal.
/// On failure the board is as it was.
pub fn solve_sudoku(board: &mut Board) -> (solved: bool)
    requires
        well_formed(*old(board)),
    ensures
        well_formed(*final(board)),
        extends(*final(board), *old(board)),
        solved ==> complete(*final(board)),
        solved && legal(*old(board)) ==> legal(*final(board)),
        !solved ==> *final(board) == *old(board),
        !solved ==> !solvable(*old(board)),
        legal(*old(board)) ==> (solved <==> solvable(*old(board))),
        complete(*old(board)) ==> solved && *final(board) == *old(board),
        solved ==> admissible(*final(board), *old(board)),
        solved <==> exists|f: Board| #[trigger] admissible(f, *old(board)),
        solved ==> forall|f: Board| #[trigger] admissible(f, *old(board)) ==> lex_le(*final(board), f),
    decreases empties(*old(board)),
{
    let ghost start = *board;
    let found = first_empty(board);
    let (row, col) = match found {
        Some(pos) => pos,
        None => {
            assert(*board =~= start);
            assert(legal(start) ==> extends(start, start));
            assert(admissible(start, start));
            assert forall|f: Board| #[trigger] admissible(f, start) implies lex_le(start, f) by {
                assert forall|k: int| 0 <= k < 81 implies #[trigger] flat(start, k) == flat(f, k) by {
                    assert(on_board(k / 9, k % 9));
                }
            }
            return true;
        },
    };
    let mut num: u8 = 1;
    while num <= 9
        invariant
            1 <= num <= 10,
            row < 9,
            col < 9,
            *board == start,
            *old(board) == start,
            well_formed(start),
            cell(start, row as int, col as int) == 0,
            forall|r2: int, c2: int|
                on_board(r2, c2) && (r2 < row || (r2 == row && c2 < col))
                    ==> #[trigger] cell(start, r2, c2) != 0,
            forall|f: Board| #[trigger] admissible(f, start) ==> !(1 <= cell(f, row as int, col as int) < num),
        decreases 10 - num,
    {
        if is_valid(board, row, col, num) {
            set_cell(board, row, col, num);
            proof {
                lemma_empties_fill(start, *board, row as int, col as int, 9);
            }
            assert(well_formed(*board));
            let ghost placed = *board;
            if solve_sudoku(board) {
                assert(extends(*board, start));
                proof {
                    if legal(start) {
                        lemma_place_keeps_legal(start, placed, row as int, col as int, num);
                    }
                    lemma_admissible_before_place(start, placed, *board, row as int, col as int, num);
                    assert forall|f: Board| #[trigger] admissible(f, start) implies lex_le(*board, f) by {
                        if cell(f, row as int, col as int) == num {
                            lemma_admissible_after_place(start, placed, f, row as int, col as int, num);
                        } else {
                            lemma_lex_at(start, *board, f, row as int, col as int);
                        }
                    }
                }
                return true;
            }
            set_cell(board, row, col, EMPTY_CELL);
            proof {
                assert(board@[row as int]@ =~= start@[row as int]@);
                assert(board@[row as int] =~= start@[row as int]);
                assert(board@ =~= start@);
                assert(*board =~= start);
            }
            assert forall|f: Board| #[trigger] admissible(f, start) implies cell(f, row as int, col as int) != num by {
                if cell(f, row as int, col as int) == num {
                    lemma_admissible_after_place(start, placed, f, row as int, col as int, num);
                }
            }
        } else {
            assert forall|f: Board| #[trigger] admissible(f, start) implies cell(f, row as int, col as int) != num by {
                let (r2, c2) = choose|r2: int, c2: int|
                    on_board(r2, c2) && peers(row as int, col as int, r2, c2) && #[trigger] cell(start, r2, c2) == num;
                assert(cell(f, r2, c2) == num);
                if cell(f, row as int, col as int) == num {
                    assert(!clashes(f, row as int, col as int, cell(f, row as int, col as int)));
                }
            }
        }
        num += 1;
    }
    assert forall|f: Board| !#[trigger] admissible(f, start) by {
        if admissible(f, start) {
            assert(on_board(row as int, col as int));
            let d = cell(f, row as int, col as int);
            assert(1 <= d <= 9);
        }
    }
    assert forall|s: Board| well_formed(s) && complete(s) && legal(s) implies !#[trigger] extends(s, start) by {
        if extends(s, start) {
            lemma_solution_admissible(s, start);
        }
    }
    false
}

} // verus!
