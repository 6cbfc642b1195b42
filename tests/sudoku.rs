use rand::rngs::StdRng;
use rand::SeedableRng;
use sudoku::board::{is_valid, Board};
use sudoku::generator::{fill_cell, generate_board, seed_from_draws};
use sudoku::render::render_board;
use sudoku::solver::{first_empty, solve_sudoku};

fn canonical_solution() -> Board {
    let mut b = [[0u8; 9]; 9];
    for r in 0..9 {
        for c in 0..9 {
            b[r][c] = ((r * 3 + r / 3 + c) % 9 + 1) as u8;
        }
    }
    b
}

fn legal(b: &Board) -> bool {
    (0..9).all(|r| (0..9).all(|c| b[r][c] == 0 || is_valid(b, r, c, b[r][c])))
}

fn units_are_permutations(b: &Board) -> bool {
    let check = |vals: Vec<u8>| {
        let mut v = vals.clone();
        v.sort();
        v == (1..=9).collect::<Vec<u8>>()
    };
    (0..9).all(|i| {
        let row: Vec<u8> = (0..9).map(|c| b[i][c]).collect();
        let col: Vec<u8> = (0..9).map(|r| b[r][i]).collect();
        let block: Vec<u8> = (0..9).map(|k| b[3 * (i / 3) + k / 3][3 * (i % 3) + k % 3]).collect();
        check(row) && check(col) && check(block)
    })
}

#[test]
fn is_valid_on_empty_board_accepts_every_digit() {
    let b = [[0u8; 9]; 9];
    for d in 1..=9 {
        assert!(is_valid(&b, 4, 4, d));
    }
}

#[test]
fn is_valid_rejects_digit_in_same_row() {
    let mut b = [[0u8; 9]; 9];
    b[2][7] = 5;
    assert!(!is_valid(&b, 2, 0, 5));
    assert!(is_valid(&b, 2, 0, 6));
}

#[test]
fn is_valid_rejects_digit_in_same_column() {
    let mut b = [[0u8; 9]; 9];
    b[8][3] = 9;
    assert!(!is_valid(&b, 0, 3, 9));
    assert!(is_valid(&b, 0, 4, 9));
}

#[test]
fn is_valid_rejects_digit_in_same_block() {
    let mut b = [[0u8; 9]; 9];
    b[4][4] = 1;
    assert!(!is_valid(&b, 3, 5, 1));
    assert!(!is_valid(&b, 5, 3, 1));
    assert!(is_valid(&b, 6, 6, 1));
    assert!(is_valid(&b, 2, 2, 1));
}

#[test]
fn is_valid_ignores_the_target_cell() {
    let mut b = [[0u8; 9]; 9];
    b[0][0] = 7;
    assert!(is_valid(&b, 0, 0, 7));
    assert!(!is_valid(&b, 0, 1, 7));
}

#[test]
fn first_empty_is_row_major() {
    let mut b = canonical_solution();
    assert_eq!(first_empty(&b), None);
    b[6][2] = 0;
    b[3][8] = 0;
    assert_eq!(first_empty(&b), Some((3, 8)));
}

#[test]
fn solve_leaves_full_legal_board_unchanged() {
    let before_solve = canonical_solution();
    let mut b = before_solve;
    assert!(solve_sudoku(&mut b));
    assert_eq!(b, before_solve);
}

#[test]
fn solve_completes_empty_board() {
    let mut b = [[0u8; 9]; 9];
    assert!(solve_sudoku(&mut b));
    assert!(b.iter().all(|row| row.iter().all(|&v| (1..=9).contains(&v))));
    assert!(legal(&b));
    assert!(units_are_permutations(&b));
    assert_eq!(b[0], [1, 2, 3, 4, 5, 6, 7, 8, 9]);
}

#[test]
fn solve_keeps_given_digits() {
    let full = canonical_solution();
    let mut b = full;
    for (r, c) in [(0, 0), (1, 5), (4, 4), (7, 2), (8, 8), (3, 6)] {
        b[r][c] = 0;
    }
    assert!(solve_sudoku(&mut b));
    assert_eq!(b, full);
}

#[test]
fn solve_fails_and_restores_board_after_backtracking() {
    let mut b = [[0u8; 9]; 9];
    for c in 0..7 {
        b[0][c] = (c + 1) as u8;
    }
    b[3][8] = 8;
    b[4][8] = 9;
    let before_solve = b;
    assert!(!solve_sudoku(&mut b));
    assert_eq!(b, before_solve);
}

#[test]
fn solve_fails_on_row_with_repeated_digit() {
    let mut b = canonical_solution();
    b[0][8] = 0;
    b[0][1] = 9;
    let before_solve = b;
    assert!(!solve_sudoku(&mut b));
    assert_eq!(b, before_solve);
}

#[test]
fn fill_cell_writes_accepted_digit() {
    let mut b = [[0u8; 9]; 9];
    fill_cell(&mut b, 1, 1, Some(4));
    assert_eq!(b[1][1], 4);
}

#[test]
fn fill_cell_makes_one_attempt_only() {
    let mut b = [[0u8; 9]; 9];
    b[0][8] = 3;
    let before = b;
    fill_cell(&mut b, 0, 0, Some(3));
    assert_eq!(b, before);
    fill_cell(&mut b, 0, 0, None);
    assert_eq!(b, before);
}

#[test]
fn generated_boards_are_legal_and_sparse() {
    let mut rng = StdRng::seed_from_u64(7);
    let mut filled = 0usize;
    let boards = 1000;
    for _ in 0..boards {
        let b = generate_board(&mut rng);
        assert!(b.iter().all(|row| row.iter().all(|&v| v <= 9)));
        assert!(legal(&b));
        filled += b.iter().map(|row| row.iter().filter(|&&v| v != 0).count()).sum::<usize>();
    }
    let fraction = filled as f64 / (boards * 81) as f64;
    assert!(fraction <= 0.6);
    assert!(fraction > 0.2);
}

#[test]
fn render_canonical_solution() {
    let text = String::from_utf8(render_board(&canonical_solution())).unwrap();
    let lines: Vec<&str> = text.lines().collect();
    assert_eq!(lines.len(), 11);
    assert_eq!(lines[0], "1 2 3 | 4 5 6 | 7 8 9 ");
    assert_eq!(lines[1], "4 5 6 | 7 8 9 | 1 2 3 ");
    assert_eq!(lines[3], "---------------------");
    assert_eq!(lines[4], "2 3 4 | 5 6 7 | 8 9 1 ");
    assert_eq!(lines[7], "---------------------");
    assert_eq!(lines[10], "9 1 2 | 3 4 5 | 6 7 8 ");
    assert!(text.ends_with('\n'));
}

#[test]
fn end_to_end_seeded() {
    let mut rng = StdRng::seed_from_u64(2024);
    let mut b = generate_board(&mut rng);
    assert!(legal(&b));
    let seed = b;
    if solve_sudoku(&mut b) {
        assert!(legal(&b));
        assert!(units_are_permutations(&b));
        for r in 0..9 {
            for c in 0..9 {
                if seed[r][c] != 0 {
                    assert_eq!(b[r][c], seed[r][c]);
                }
            }
        }
    } else {
        assert_eq!(b, seed);
    }
    let text = String::from_utf8(render_board(&b)).unwrap();
    let digit_lines: Vec<&str> = text.lines().filter(|l| !l.starts_with('-')).collect();
    assert_eq!(digit_lines.len(), 9);
    for line in digit_lines {
        assert_eq!(line.chars().filter(|ch| ch.is_ascii_digit()).count(), 9);
    }
    assert_eq!(text.lines().filter(|l| l.starts_with('-')).count(), 2);
}

#[test]
fn solve_empty_board_gives_first_grid() {
    let mut b = [[0u8; 9]; 9];
    assert!(solve_sudoku(&mut b));
    let expected: Board = [
        [1, 2, 3, 4, 5, 6, 7, 8, 9],
        [4, 5, 6, 7, 8, 9, 1, 2, 3],
        [7, 8, 9, 1, 2, 3, 4, 5, 6],
        [2, 1, 4, 3, 6, 5, 8, 9, 7],
        [3, 6, 5, 8, 9, 7, 2, 1, 4],
        [8, 9, 7, 2, 1, 4, 3, 6, 5],
        [5, 3, 1, 6, 4, 2, 9, 7, 8],
        [6, 4, 2, 9, 7, 8, 5, 3, 1],
        [9, 7, 8, 5, 3, 1, 6, 4, 2],
    ];
    assert_eq!(b, expected);
}

#[test]
fn solve_fills_cells_without_clash_on_illegal_board() {
    let mut b = canonical_solution();
    b[4][4] = b[4][5];
    b[0][0] = 0;
    b[8][8] = 0;
    let before_solve = b;
    assert!(solve_sudoku(&mut b));
    for r in 0..9 {
        for c in 0..9 {
            if before_solve[r][c] == 0 {
                assert!(is_valid(&b, r, c, b[r][c]));
            } else {
                assert_eq!(b[r][c], before_solve[r][c]);
            }
        }
    }
}

#[test]
fn seed_with_every_attempt_giving_one_fills_a_diagonal() {
    let draws = vec![Some(1u8); 81];
    let b = seed_from_draws(&draws);
    let ones = [(0, 0), (1, 3), (2, 6), (3, 1), (4, 4), (5, 7), (6, 2), (7, 5), (8, 8)];
    for r in 0..9 {
        for c in 0..9 {
            let want = if ones.contains(&(r, c)) { 1 } else { 0 };
            assert_eq!(b[r][c], want);
        }
    }
}

#[test]
fn seed_with_no_attempts_is_empty() {
    let draws: Vec<Option<u8>> = vec![None; 81];
    assert_eq!(seed_from_draws(&draws), [[0u8; 9]; 9]);
}

#[test]
fn seed_rejected_digit_is_not_retried() {
    let mut draws: Vec<Option<u8>> = vec![None; 81];
    draws[0] = Some(4);
    draws[1] = Some(4);
    draws[2] = Some(6);
    let b = seed_from_draws(&draws);
    assert_eq!(b[0][0], 4);
    assert_eq!(b[0][1], 0);
    assert_eq!(b[0][2], 6);
    assert_eq!(b.iter().flatten().filter(|&&v| v != 0).count(), 2);
}
