//! Laws on solved boards, and on the empty board as a starting point.

use vstd::prelude::*;
use vstd::array::{spec_array_fill_for_copy_type, spec_array_update};
use vstd::set_lib::{lemma_int_range, lemma_subset_equality, set_int_range};

use crate::board::{cell, complete, extends, legal, on_board, peers, solvable, well_formed, Board};

verus! {

/// The nine values of row `r`, left to right.
pub open spec fn row_values(b: Board, r: int) -> Seq<int> {
    Seq::new(9, |c: int| cell(b, r, c) as int)
}

/// The nine values of column `c`, top to bottom.
pub open spec fn col_values(b: Board, c: int) -> Seq<int> {
    Seq::new(9, |r: int| cell(b, r, c) as int)
}

/// The nine values of sub-block `k` (0 to 8, row-major), in row-major order.
pub open spec fn block_values(b: Board, k: int) -> Seq<int> {
    Seq::new(9, |i: int| cell(b, 3 * (k / 3) + i / 3, 3 * (k % 3) + i % 3) as int)
}

/// Each digit 1 to 9 once, and nothing else.
pub open spec fn is_digit_permutation(s: Seq<int>) -> bool {
    &&& s.len() == 9
    &&& s.no_duplicates()
    &&& forall|d: int| 1 <= d <= 9 <==> s.contains(d)
}

proof fn lemma_distinct_digits_cover(s: Seq<int>)
    requires
        s.len() == 9,
        s.no_duplicates(),
        forall|i: int| 0 <= i < 9 ==> 1 <= #[trigger] s[i] <= 9,
    ensures
        is_digit_permutation(s),
{
    s.unique_seq_to_set();
    lemma_int_range(1, 10);
    let digits = set_int_range(1, 10);
    assert(s.to_set().subset_of(digits));
    lemma_subset_equality(s.to_set(), digits);
    assert forall|d: int| 1 <= d <= 9 <==> s.contains(d) by {
        if 1 <= d <= 9 {
            assert(digits.contains(d));
            assert(s.to_set().contains(d));
        }
    }
}

/// In a complete legal board every row, every column and every sub-block
/// holds each digit 1 to 9 exactly once.
pub proof fn lemma_solved_units_are_permutations(b: Board)
    requires
        well_formed(b),
        complete(b),
        legal(b),
    ensures
        forall|r: int| 0 <= r < 9 ==> is_digit_permutation(#[trigger] row_values(b, r)),
        forall|c: int| 0 <= c < 9 ==> is_digit_permutation(#[trigger] col_values(b, c)),
        forall|k: int| 0 <= k < 9 ==> is_digit_permutation(#[trigger] block_values(b, k)),
{
    assert forall|r: int| 0 <= r < 9 implies is_digit_permutation(#[trigger] row_values(b, r)) by {
        let s = row_values(b, r);
        assert forall|i: int, j: int| 0 <= i < s.len() && 0 <= j < s.len() && i != j
            implies s[i] != s[j] by {
            assert(peers(r, i, r, j));
            assert(cell(b, r, i) != cell(b, r, j));
        }
        assert forall|i: int| 0 <= i < 9 implies 1 <= #[trigger] s[i] <= 9 by {
            assert(on_board(r, i));
        }
        lemma_distinct_digits_cover(s);
    }
    assert forall|c: int| 0 <= c < 9 implies is_digit_permutation(#[trigger] col_values(b, c)) by {
        let s = col_values(b, c);
        assert forall|i: int, j: int| 0 <= i < s.len() && 0 <= j < s.len() && i != j
            implies s[i] != s[j] by {
            assert(peers(i, c, j, c));
            assert(cell(b, i, c) != cell(b, j, c));
        }
        assert forall|i: int| 0 <= i < 9 implies 1 <= #[trigger] s[i] <= 9 by {
            assert(on_board(i, c));
        }
        lemma_distinct_digits_cover(s);
    }
    assert forall|k: int| 0 <= k < 9 implies is_digit_permutation(#[trigger] block_values(b, k)) by {
        let s = block_values(b, k);
        let r0 = 3 * (k / 3);
        let c0 = 3 * (k % 3);
        assert forall|i: int, j: int| 0 <= i < s.len() && 0 <= j < s.len() && i != j
            implies s[i] != s[j] by {
            let (r1, c1) = (r0 + i / 3, c0 + i % 3);
            let (r2, c2) = (r0 + j / 3, c0 + j % 3);
            assert(on_board(r1, c1) && on_board(r2, c2));
            assert(r1 / 3 == k / 3 && r2 / 3 == k / 3);
            assert(c1 / 3 == k % 3 && c2 / 3 == k % 3);
            assert(r1 != r2 || c1 != c2);
            assert(peers(r1, c1, r2, c2));
            assert(cell(b, r1, c1) != cell(b, r2, c2));
        }
        assert forall|i: int| 0 <= i < 9 implies 1 <= #[trigger] s[i] <= 9 by {
            assert(on_board(r0 + i / 3, c0 + i % 3));
        }
        lemma_distinct_digits_cover(s);
    }
}

/// The digit at `(r, c)` of a fixed solution: each row is the row above
/// shifted by three, and each band the band above shifted by one.
spec fn pattern_digit(r: int, c: int) -> u8 {
    ((3 * (r % 3) + r / 3 + c) % 9 + 1) as u8
}

spec fn pattern_row(r: int, n: int) -> [u8; 9]
    decreases n,
{
    if n <= 0 {
        spec_array_fill_for_copy_type(0u8)
    } else {
        spec_array_update(pattern_row(r, n - 1), n - 1, pattern_digit(r, n - 1))
    }
}

spec fn pattern_rows(n: int) -> Board
    decreases n,
{
    if n <= 0 {
        spec_array_fill_for_copy_type(spec_array_fill_for_copy_type(0u8))
    } else {
        spec_array_update(pattern_rows(n - 1), n - 1, pattern_row(n - 1, 9))
    }
}

proof fn lemma_pattern_row(r: int, n: int)
    requires
        0 <= n <= 9,
    ensures
        forall|c: int| 0 <= c < n ==> (#[trigger] pattern_row(r, n)@[c]) == pattern_digit(r, c),
    decreases n,
{
    broadcast use vstd::array::group_array_axioms;

    if n > 0 {
        lemma_pattern_row(r, n - 1);
        assert(pattern_row(r, n)@ == pattern_row(r, n - 1)@.update(n - 1, pattern_digit(r, n - 1)));
    }
}

proof fn lemma_pattern_rows(n: int)
    requires
        0 <= n <= 9,
    ensures
        forall|r: int, c: int| 0 <= r < n && 0 <= c < 9 ==> #[trigger] cell(pattern_rows(n), r, c) == pattern_digit(r, c),
    decreases n,
{
    broadcast use vstd::array::group_array_axioms;

    if n > 0 {
        lemma_pattern_rows(n - 1);
        lemma_pattern_row(n - 1, 9);
        assert(pattern_rows(n)@ == pattern_rows(n - 1)@.update(n - 1, pattern_row(n - 1, 9)));
        assert forall|r: int, c: int| 0 <= r < n && 0 <= c < 9 implies #[trigger] cell(pattern_rows(n), r, c)
            == pattern_digit(r, c) by {
            if r < n - 1 {
                assert(cell(pattern_rows(n - 1), r, c) == pattern_digit(r, c));
            } else {
                assert(pattern_row(n - 1, 9)@[c] == pattern_digit(r, c));
            }
        }
    }
}

proof fn lemma_same_residue(x1: int, x2: int)
    requires
        0 <= x1 <= 24,
        0 <= x2 <= 24,
        x1 % 9 == x2 % 9,
    ensures
        x1 - x2 == 0 || x1 - x2 == 9 || x1 - x2 == -9 || x1 - x2 == 18 || x1 - x2 == -18,
{
}

proof fn lemma_pattern_distinct(r1: int, c1: int, r2: int, c2: int)
    requires
        on_board(r1, c1),
        on_board(r2, c2),
        peers(r1, c1, r2, c2),
    ensures
        pattern_digit(r1, c1) != pattern_digit(r2, c2),
{
    let (q1, a1, q2, a2) = (r1 / 3, r1 % 3, r2 / 3, r2 % 3);
    let (k1, e1, k2, e2) = (c1 / 3, c1 % 3, c2 / 3, c2 % 3);
    assert(r1 == 3 * q1 + a1 && 0 <= a1 < 3 && 0 <= q1 < 3);
    assert(r2 == 3 * q2 + a2 && 0 <= a2 < 3 && 0 <= q2 < 3);
    assert(c1 == 3 * k1 + e1 && 0 <= e1 < 3 && 0 <= k1 < 3);
    assert(c2 == 3 * k2 + e2 && 0 <= e2 < 3 && 0 <= k2 < 3);
    let x1 = 3 * a1 + q1 + c1;
    let x2 = 3 * a2 + q2 + c2;
    if x1 % 9 == x2 % 9 {
        lemma_same_residue(x1, x2);
        if r1 == r2 {
            assert(c1 != c2);
        } else if c1 == c2 {
            assert(a1 != a2 || q1 != q2);
        } else {
            assert(q1 == q2 && k1 == k2);
        }
    }
}

/// A board of empty cells is legal and has a completion, so `solve_sudoku`
/// succeeds on it and hands back a complete legal board.
pub proof fn lemma_empty_board_solvable(b: Board)
    requires
        forall|r: int, c: int| on_board(r, c) ==> #[trigger] cell(b, r, c) == 0,
    ensures
        legal(b),
        solvable(b),
{
    let s = pattern_rows(9);
    lemma_pattern_rows(9);
    assert forall|r1: int, c1: int, r2: int, c2: int|
        on_board(r1, c1) && on_board(r2, c2) && peers(r1, c1, r2, c2) && cell(s, r1, c1) != 0
            implies #[trigger] cell(s, r1, c1) != #[trigger] cell(s, r2, c2) by {
        lemma_pattern_distinct(r1, c1, r2, c2);
    }
    assert(well_formed(s) && complete(s) && legal(s));
    assert(extends(s, b));
}

} // verus!
