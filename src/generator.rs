//! Sparse random seed boards.

use rand::rngs::StdRng;
use rand::Rng;
use vstd::array::{spec_array_fill_for_copy_type, spec_array_update};
use vstd::prelude::*;

use crate::board::{
    cell, clashes, is_valid, lemma_place_keeps_legal, legal, on_board, well_formed, Board,
    EMPTY_CELL, SIZE,
};

verus! {

/// Chance that a cell gets a fill attempt: `FILL_NUMERATOR / FILL_DENOMINATOR`.
pub const FILL_NUMERATOR: u32 = 3;

pub const FILL_DENOMINATOR: u32 = 5;

#[verifier::external_type_specification]
#[verifier::external_body]
pub struct ExStdRng(StdRng);

/// Relies on `rand::Rng::gen_ratio`: true with probability
/// `numerator / denominator`; always true when they are equal and never when
/// the numerator is 0. It panics on a zero denominator or a numerator above it.
#[verifier::external_body]
fn chance(rng: &mut StdRng, numerator: u32, denominator: u32) -> (hit: bool)
    requires
        0 < denominator,
        numerator <= denominator,
    ensures
        numerator == denominator ==> hit,
        numerator == 0 ==> !hit,
{
    rng.gen_ratio(numerator, denominator)
}

/// Relies on `rand::Rng::gen_range` over `lo..=hi`: a value in that range. It
/// panics on an empty range.
#[verifier::external_body]
fn uniform_between(rng: &mut StdRng, lo: u8, hi: u8) -> (v: u8)
    requires
        lo <= hi,
    ensures
        lo <= v <= hi,
{
    rng.gen_range(lo..=hi)
}

/// The board `b` with `d` written at `(r, c)`.
pub open spec fn placed(b: Board, r: int, c: int, d: u8) -> Board {
    spec_array_update(b, r, spec_array_update(b@[r], c, d))
}

/// The board with every cell empty.
pub open spec fn empty_board() -> Board {
    spec_array_fill_for_copy_type(spec_array_fill_for_copy_type(0u8))
}

/// One fill attempt at `(r, c)`: the drawn digit, if any, is written only
/// when it clashes with nothing.
pub open spec fn attempt(b: Board, r: int, c: int, draw: Option<u8>) -> Board {
    match draw {
        Some(d) => if clashes(b, r, c, d) { b } else { placed(b, r, c, d) },
        None => b,
    }
}

/// One draw per cell, in row-major order; a drawn digit is 1 to 9.
pub open spec fn valid_draws(ds: Seq<Option<u8>>) -> bool {
    &&& ds.len() == 81
    &&& forall|k: int| 0 <= k < 81 ==> match #[trigger] ds[k] {
        Some(d) => 1 <= d <= 9,
        None => true,
    }
}

/// The empty board after the fill attempts of the first `n` cells in
/// row-major order, cell `k` being `(k / 9, k % 9)` and taking draw `ds[k]`.
pub open spec fn seeded(ds: Seq<Option<u8>>, n: int) -> Board
    decreases n,
{
    if n <= 0 {
        empty_board()
    } else {
        attempt(seeded(ds, n - 1), (n - 1) / 9, (n - 1) % 9, ds[n - 1])
    }
}

/// One fill attempt at `(row, col)`: a drawn digit is written there only when
/// the checker accepts it; a rejected digit, or no draw, leaves the board as
/// it was. There is no second try.
pub fn fill_cell(board: &mut Board, row: usize, col: usize, draw: Option<u8>)
    requires
        row < 9,
        col < 9,
        match draw {
            Some(d) => 1 <= d <= 9,
            None => true,
        },
    ensures
        *final(board) == attempt(*old(board), row as int, col as int, draw),
        match draw {
            Some(d) if !clashes(*old(board), row as int, col as int, d) => {
                &&& cell(*final(board), row as int, col as int) == d
                &&& forall|r: int, c: int| on_board(r, c) && (r != row || c != col)
                    ==> #[trigger] cell(*final(board), r, c) == cell(*old(board), r, c)
            },
            _ => *final(board) == *old(board),
        },
{
    broadcast use vstd::array::group_array_axioms;

    let ghost before = *board;
    if let Some(d) = draw {
        if is_valid(board, row, col, d) {
            board[row][col] = d;
            proof {
                let p = placed(before, row as int, col as int, d);
                assert(board@[row as int]@ =~= p@[row as int]@);
                assert(board@[row as int] =~= p@[row as int]);
                assert(board@ =~= p@);
                assert(*board =~= p);
            }
        }
    }
}

/// The seed board that the draws give: each cell in row-major order gets one
/// fill attempt with its own draw, checked against the board filled so far.
pub fn seed_from_draws(draws: &Vec<Option<u8>>) -> (board: Board)
    requires
        valid_draws(draws@),
    ensures
        board == seeded(draws@, 81),
        well_formed(board),
        legal(board),
{
    let mut board: Board = [[EMPTY_CELL; 9]; 9];
    assert(board == empty_board());
    assert(legal(board));
    let mut i: usize = 0;
    while i < SIZE
        invariant
            i <= 9,
            valid_draws(draws@),
            board == seeded(draws@, 9 * i),
            well_formed(board),
            legal(board),
        decreases 9 - i,
    {
        let mut j: usize = 0;
        while j < SIZE
            invariant
                i < 9,
                j <= 9,
                valid_draws(draws@),
                board == seeded(draws@, 9 * i + j),
                well_formed(board),
                legal(board),
            decreases 9 - j,
        {
            let k: usize = 9 * i + j;
            let draw = draws[k];
            assert(k as int / 9 == i && k as int % 9 == j);
            assert(match draw {
                Some(d) => 1 <= d <= 9,
                None => true,
            }) by {
                assert(draws@[k as int] == draw);
            }
            let ghost before = board;
            fill_cell(&mut board, i, j, draw);
            proof {
                if board != before {
                    let d = draw.unwrap();
                    lemma_place_keeps_legal(before, board, i as int, j as int, d);
                }
            }
            assert(board == seeded(draws@, 9 * i + j + 1));
            j += 1;
        }
        i += 1;
    }
    board
}

/// A seed board: every cell, in row-major order, gets a fill attempt with
/// chance 3/5; an attempt draws a digit 1 to 9 uniformly, and the board is
/// then what `seed_from_draws` makes of those draws. Whatever is drawn, the
/// result holds only digits 1 to 9 and empty cells, and is legal.
pub fn generate_board(rng: &mut StdRng) -> (board: Board)
    ensures
        well_formed(board),
        legal(board),
        exists|ds: Seq<Option<u8>>| valid_draws(ds) && board == #[trigger] seeded(ds, 81),
{
    let mut draws: Vec<Option<u8>> = Vec::new();
    let mut k: usize = 0;
    while k < SIZE * SIZE
        invariant
            k <= 81,
            draws@.len() == k,
            forall|x: int| 0 <= x < k ==> match #[trigger] draws@[x] {
                Some(d) => 1 <= d <= 9,
                None => true,
            },
        decreases 81 - k,
    {
        let draw: Option<u8> = if chance(rng, FILL_NUMERATOR, FILL_DENOMINATOR) {
            Some(uniform_between(rng, 1, 9))
        } else {
            None
        };
        draws.push(draw);
        k += 1;
    }
    let board = seed_from_draws(&draws);
    assert(valid_draws(draws@) && board == seeded(draws@, 81));
    board
}

} // verus!
