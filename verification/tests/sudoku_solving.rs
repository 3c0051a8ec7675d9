use dlx_sudoku::sudoku::Sudoku;

/// A famously hard valid puzzle with a unique solution.
fn hard_puzzle() -> [[u8; 9]; 9] {
    [
        [8, 0, 0, 0, 0, 0, 0, 0, 0],
        [0, 0, 3, 6, 0, 0, 0, 0, 0],
        [0, 7, 0, 0, 9, 0, 2, 0, 0],
        [0, 5, 0, 0, 0, 7, 0, 0, 0],
        [0, 0, 0, 0, 4, 5, 7, 0, 0],
        [0, 0, 0, 1, 0, 0, 0, 3, 0],
        [0, 0, 1, 0, 0, 0, 0, 6, 8],
        [0, 0, 8, 5, 0, 0, 0, 1, 0],
        [0, 9, 0, 0, 0, 0, 4, 0, 0],
    ]
}

/// A fully pre-filled valid grid.
fn solved_grid() -> [[u8; 9]; 9] {
    [
        [1, 2, 3, 4, 5, 6, 7, 8, 9],
        [4, 5, 6, 7, 8, 9, 1, 2, 3],
        [7, 8, 9, 1, 2, 3, 4, 5, 6],
        [2, 3, 1, 5, 6, 4, 8, 9, 7],
        [5, 6, 4, 8, 9, 7, 2, 3, 1],
        [8, 9, 7, 2, 3, 1, 5, 6, 4],
        [3, 1, 2, 6, 4, 5, 9, 7, 8],
        [6, 4, 5, 9, 7, 8, 3, 1, 2],
        [9, 7, 8, 3, 1, 2, 6, 4, 5],
    ]
}

/// Checks that every row, column and 3x3 box holds the digits 1 ..= 9 each
/// exactly once.
fn assert_valid_solution(s: &Sudoku) {
    for l in 0..9 {
        let mut row_seen = [false; 10];
        let mut col_seen = [false; 10];
        let mut row_sum = 0u32;
        let mut col_sum = 0u32;
        for c in 0..9 {
            let rv = s.get(l, c).res as usize;
            let cv = s.get(c, l).res as usize;
            assert!((1..=9).contains(&rv));
            assert!((1..=9).contains(&cv));
            assert!(!row_seen[rv]);
            assert!(!col_seen[cv]);
            row_seen[rv] = true;
            col_seen[cv] = true;
            row_sum += rv as u32;
            col_sum += cv as u32;
        }
        assert_eq!(row_sum, 45);
        assert_eq!(col_sum, 45);
    }
    for bl in 0..3 {
        for bc in 0..3 {
            let mut seen = [false; 10];
            let mut sum = 0u32;
            for i in 0..3 {
                for j in 0..3 {
                    let v = s.get(bl * 3 + i, bc * 3 + j).res as usize;
                    assert!((1..=9).contains(&v));
                    assert!(!seen[v]);
                    seen[v] = true;
                    sum += v as u32;
                }
            }
            assert_eq!(sum, 45);
        }
    }
}

#[test]
fn init_copies_the_givens() {
    let s = Sudoku::init(hard_puzzle());
    let input = hard_puzzle();
    for l in 0..9 {
        for c in 0..9 {
            assert_eq!(s.get(l, c).res, input[l][c]);
        }
    }
}

#[test]
fn encoder_emits_one_row_per_candidate() {
    // 21 givens and 60 empty cells: 21 + 60 * 9 = 561 candidate rows of 4
    // nodes each, after the root and the 324 headers
    let s = Sudoku::init(hard_puzzle());
    let dlx = s.dlx();
    assert_eq!(dlx.id, 325 + 4 * 561);
    assert_eq!(dlx.root, 0);
}

#[test]
fn cells_can_be_edited_in_place() {
    let mut s = Sudoku::init([[0u8; 9]; 9]);
    s.get_mut(4, 7).res = 3;
    assert_eq!(s.get(4, 7).res, 3);
    assert_eq!(s.get(4, 6).res, 0);
}

#[test]
fn hard_puzzle_is_solved() {
    let mut s = Sudoku::init(hard_puzzle());
    s.resolve();
    assert_valid_solution(&s);
    // the givens are untouched
    let input = hard_puzzle();
    for l in 0..9 {
        for c in 0..9 {
            if input[l][c] != 0 {
                assert_eq!(s.get(l, c).res, input[l][c]);
            }
        }
    }
}

#[test]
fn duplicate_given_is_infeasible() {
    let mut grid = [[0u8; 9]; 9];
    grid[0][0] = 5;
    grid[0][1] = 5;
    let s = Sudoku::init(grid);
    let mut dlx = s.dlx();
    let mut res = Vec::new();
    assert!(!dlx.solve(&mut res));
    assert!(res.is_empty());
    // resolve leaves the grid exactly as it was
    let mut s2 = Sudoku::init(grid);
    s2.resolve();
    for l in 0..9 {
        for c in 0..9 {
            assert_eq!(s2.get(l, c).res, grid[l][c]);
        }
    }
}

#[test]
fn already_solved_grid_passes_through() {
    let s = Sudoku::init(solved_grid());
    let mut dlx = s.dlx();
    // one candidate row per cell: exactly 81 rows of 4 nodes each
    assert_eq!(dlx.id, 325 + 4 * 81);
    let mut res = Vec::new();
    assert!(dlx.solve(&mut res));
    assert_eq!(res.len(), 81);
    let mut sorted = res.clone();
    sorted.sort();
    let expect: Vec<usize> = (0..81).collect();
    assert_eq!(sorted, expect);
    // decoding changes nothing
    let mut s2 = Sudoku::init(solved_grid());
    s2.resolve();
    let input = solved_grid();
    for l in 0..9 {
        for c in 0..9 {
            assert_eq!(s2.get(l, c).res, input[l][c]);
        }
    }
}

/// The 4 constraint columns of candidate row `line`, recovered by replaying
/// the encoder's enumeration over the grid.
fn columns_of_line(grid: &[[u8; 9]; 9], line: usize) -> [usize; 4] {
    let mut cur = 0usize;
    for l in 0..9 {
        for c in 0..9 {
            let digits: Vec<usize> = if grid[l][c] == 0 {
                (1..=9).collect()
            } else {
                vec![grid[l][c] as usize]
            };
            for n in digits {
                if cur == line {
                    return [
                        l * 9 + c,
                        80 + l * 9 + n,
                        161 + c * 9 + n,
                        242 + (l - l % 3 + c / 3) * 9 + n,
                    ];
                }
                cur += 1;
            }
        }
    }
    panic!("row index {line} beyond the enumeration");
}

#[test]
fn solution_covers_every_column_exactly_once() {
    let grid = hard_puzzle();
    let s = Sudoku::init(grid);
    let mut dlx = s.dlx();
    let mut res = Vec::new();
    assert!(dlx.solve(&mut res));
    assert_eq!(res.len(), 81);
    let mut covered = [0u32; 324];
    for &line in &res {
        for col in columns_of_line(&grid, line) {
            covered[col] += 1;
        }
    }
    // each of the 324 columns — in particular each of the 81 cell-position
    // columns — is covered by exactly one chosen row, so no two chosen rows
    // share any constraint column
    for col in 0..324 {
        assert_eq!(covered[col], 1);
    }
}
