//! Text layout of a board: nine lines of space-separated digits, a `| ` before
//! the fourth and seventh columns, and a line of dashes after every third row.

use vstd::prelude::*;

use crate::board::{cell, on_board, well_formed, Board, SIZE};

verus! {

/// ASCII codes of the characters of the text.
pub const DIGIT_ZERO: u8 = 48;

pub const SPACE: u8 = 32;

pub const BAR: u8 = 124;

pub const DASH: u8 = 45;

pub const NEWLINE: u8 = 10;

/// Width of the line of dashes between bands of three rows.
pub const SEPARATOR_WIDTH: usize = 21;

/// The text of cell `(r, c)`: its digit and a space, after `| ` when the cell
/// starts the second or third sub-block of its row.
pub open spec fn cell_text(b: Board, r: int, c: int) -> Seq<u8> {
    let lead: Seq<u8> = if c % 3 == 0 && c != 0 { seq![BAR, SPACE] } else { seq![] };
    lead + seq![(DIGIT_ZERO + cell(b, r, c)) as u8, SPACE]
}

/// The text of the first `n` cells of row `r`.
pub open spec fn row_prefix_text(b: Board, r: int, n: int) -> Seq<u8>
    decreases n,
{
    if n <= 0 {
        seq![]
    } else {
        row_prefix_text(b, r, n - 1) + cell_text(b, r, n - 1)
    }
}

/// The line of row `r`, newline included.
pub open spec fn line_text(b: Board, r: int) -> Seq<u8> {
    row_prefix_text(b, r, 9).push(NEWLINE)
}

/// The line of dashes, newline included.
pub open spec fn separator_text() -> Seq<u8> {
    Seq::new(SEPARATOR_WIDTH as nat, |i: int| DASH).push(NEWLINE)
}

/// The text of the first `n` rows, with a separator before rows 3 and 6.
pub open spec fn rows_text(b: Board, n: int) -> Seq<u8>
    decreases n,
{
    if n <= 0 {
        seq![]
    } else {
        let sep: Seq<u8> = if (n - 1) % 3 == 0 && n - 1 != 0 { separator_text() } else { seq![] };
        rows_text(b, n - 1) + sep + line_text(b, n - 1)
    }
}

/// The whole text of a board.
pub open spec fn rendered(b: Board) -> Seq<u8> {
    rows_text(b, 9)
}

proof fn lemma_row_prefix_len(b: Board, r: int, n: int)
    requires
        0 <= n <= 9,
        forall|c: int| 0 <= c < 9 ==> #[trigger] cell(b, r, c) <= 9,
    ensures
        row_prefix_text(b, r, n).len() == 2 * n + 2 * (if n > 6 { 2int } else if n > 3 { 1int } else { 0int }),
        forall|i: int| 0 <= i < row_prefix_text(b, r, n).len() ==> #[trigger] row_prefix_text(b, r, n)[i] != NEWLINE,
    decreases n,
{
    if n > 0 {
        lemma_row_prefix_len(b, r, n - 1);
        let p = row_prefix_text(b, r, n - 1);
        let t = cell_text(b, r, n - 1);
        assert(cell(b, r, n - 1) <= 9);
        assert forall|i: int| 0 <= i < (p + t).len() implies #[trigger] (p + t)[i] != NEWLINE by {
            if i >= p.len() {
                assert(t[i - p.len()] != NEWLINE);
            }
        }
    }
}

/// The text of a board is eleven lines: the nine rows, with a line of 21
/// dashes after the third and the sixth. Each row line is 22 characters, its
/// nine digits with a space after each and `| ` twice, and then a newline;
/// no line holds a newline before its end.
pub proof fn lemma_rendered_lines(b: Board)
    requires
        well_formed(b),
    ensures
        rendered(b) == line_text(b, 0) + line_text(b, 1) + line_text(b, 2) + separator_text()
            + line_text(b, 3) + line_text(b, 4) + line_text(b, 5) + separator_text()
            + line_text(b, 6) + line_text(b, 7) + line_text(b, 8),
        separator_text().len() == 22,
        separator_text().last() == NEWLINE,
        forall|i: int| 0 <= i < 21 ==> #[trigger] separator_text()[i] == DASH,
        forall|r: int| 0 <= r < 9 ==> (#[trigger] line_text(b, r)).len() == 23,
        forall|r: int| 0 <= r < 9 ==> (#[trigger] line_text(b, r)).last() == NEWLINE,
        forall|r: int, i: int| 0 <= r < 9 && 0 <= i < 22 ==> #[trigger] line_text(b, r)[i] != NEWLINE,
{
    assert forall|r: int| 0 <= r < 9 implies (#[trigger] line_text(b, r)).len() == 23 && line_text(b, r).last() == NEWLINE
        && forall|i: int| 0 <= i < 22 ==> #[trigger] line_text(b, r)[i] != NEWLINE by {
        assert forall|c: int| 0 <= c < 9 implies #[trigger] cell(b, r, c) <= 9 by {
            assert(on_board(r, c));
        }
        lemma_row_prefix_len(b, r, 9);
        assert forall|i: int| 0 <= i < 22 implies #[trigger] line_text(b, r)[i] != NEWLINE by {
            assert(line_text(b, r)[i] == row_prefix_text(b, r, 9)[i]);
        }
    }
    reveal_with_fuel(rows_text, 10);
    assert(rendered(b) =~= line_text(b, 0) + line_text(b, 1) + line_text(b, 2) + separator_text()
            + line_text(b, 3) + line_text(b, 4) + line_text(b, 5) + separator_text()
            + line_text(b, 6) + line_text(b, 7) + line_text(b, 8));
}

/// The board as ASCII text, laid out as `rendered` says.
pub fn render_board(board: &Board) -> (text: Vec<u8>)
    requires
        well_formed(*board),
    ensures
        text@ == rendered(*board),
{
    let mut out: Vec<u8> = Vec::new();
    let mut i: usize = 0;
    while i < SIZE
        invariant
            i <= 9,
            well_formed(*board),
            out@ == rows_text(*board, i as int),
        decreases 9 - i,
    {
        let ghost at_row = out@;
        if i % 3 == 0 && i != 0 {
            let mut k: usize = 0;
            while k < SEPARATOR_WIDTH
                invariant
                    k <= SEPARATOR_WIDTH,
                    out@ == at_row + Seq::new(k as nat, |x: int| DASH),
                decreases SEPARATOR_WIDTH - k,
            {
                out.push(DASH);
                k += 1;
                assert(out@ =~= at_row + Seq::new(k as nat, |x: int| DASH));
            }
            out.push(NEWLINE);
            assert(out@ =~= at_row + separator_text());
        } else {
            assert(out@ =~= at_row + seq![]);
        }
        let ghost at_line = out@;
        let mut j: usize = 0;
        while j < SIZE
            invariant
                i < 9,
                j <= 9,
                well_formed(*board),
                out@ == at_line + row_prefix_text(*board, i as int, j as int),
            decreases 9 - j,
        {
            let ghost before = out@;
            if j % 3 == 0 && j != 0 {
                out.push(BAR);
                out.push(SPACE);
            }
            assert(on_board(i as int, j as int));
            let v = board[i][j];
            assert(v == cell(*board, i as int, j as int));
            out.push(DIGIT_ZERO + v);
            out.push(SPACE);
            assert(out@ =~= before + cell_text(*board, i as int, j as int));
            j += 1;
            assert(out@ =~= at_line + row_prefix_text(*board, i as int, j as int));
        }
        out.push(NEWLINE);
        assert(out@ =~= at_line + line_text(*board, i as int));
        i += 1;
        assert(out@ =~= rows_text(*board, i as int));
    }
    out
}

} // verus!
