use sudoku::board::Board;

fn board_4x4(cells: Vec<usize>) -> Board {
    Board { size: 4, cells, fixed_cells: vec![] }
}

#[test]
fn test_exists_in_row() {
    let board = Board {
        size: 4,
        cells: vec![1, 2, 3, 4, 4, 3, 2, 1, 1, 2, 3, 4, 4, 3, 2, 1],
        fixed_cells: vec![],
    };
    assert!(board.exists_in_row(1, 2));
    assert!(!board.exists_in_row(0, 5));
}

#[test]
fn test_exists_in_column() {
    let board = Board {
        size: 4,
        cells: vec![1, 2, 3, 4, 4, 3, 2, 1, 1, 2, 3, 4, 5, 5, 2, 1],
        fixed_cells: vec![],
    };
    assert!(board.exists_in_column(0, 5));
    assert!(!board.exists_in_column(0, 3));
}

#[test]
fn test_exists_in_box() {
    let board = Board {
        size: 4,
        cells: vec![1, 2, 3, 4, 4, 3, 2, 1, 1, 2, 3, 4, 5, 5, 2, 1],
        fixed_cells: vec![],
    };
    assert!(board.exists_in_box(0, 3));
    assert!(!board.exists_in_box(15, 5));
}

#[test]
fn index_is_row_major() {
    let board = board_4x4(vec![0; 16]);
    assert_eq!(board.index(0, 0), 0);
    assert_eq!(board.index(3, 0), 3);
    assert_eq!(board.index(0, 2), 8);
    assert_eq!(board.index(3, 2), 11);
}

// A row without duplicates still conflicts through its column: placing 1
// at index 8 (row 2, column 0) must be rejected, because column 0 already
// holds a 1 at index 0.
#[test]
fn column_conflict_detected() {
    let board = board_4x4(vec![1, 2, 3, 4, 4, 3, 2, 1, 1, 2, 3, 4, 4, 3, 2, 1]);
    let row0: Vec<usize> = board.cells[0..4].to_vec();
    let mut sorted = row0.clone();
    sorted.sort();
    assert_eq!(sorted, vec![1, 2, 3, 4]);
    assert!(board.exists_in_column(8, 1));
    assert!(!board.check_if_valid(8, 1));
    // The same conflict on the grid with cell 8 still empty: the check
    // must reject the placement, and accept a compatible digit elsewhere.
    let open_board = board_4x4(vec![1, 2, 3, 4, 4, 3, 2, 1, 0, 2, 3, 4, 4, 3, 2, 1]);
    assert!(!open_board.check_if_valid(8, 1));
}

// Solving a grid that is already a complete valid solution returns true
// and changes nothing.
#[test]
fn solve_is_idempotent_on_complete_grid() {
    let cells = vec![1, 2, 3, 4, 3, 4, 1, 2, 2, 1, 4, 3, 4, 3, 2, 1];
    let mut board = board_4x4(cells.clone());
    assert!(board.solve_brute_force());
    assert_eq!(board.cells, cells);
}

// Solving an unsolvable grid returns false and leaves the cells exactly
// as they were: every tentative placement is undone.
#[test]
fn solve_restores_unsolvable_grid() {
    let cells = vec![0, 2, 3, 4, 1, 0, 0, 0, 0, 0, 0, 0, 0, 0, 0, 0];
    let mut board = board_4x4(cells.clone());
    assert!(!board.solve_brute_force());
    assert_eq!(board.cells, cells);
}

fn assert_valid_complete(size: usize, cells: &[usize]) {
    let b = (size as f64).sqrt() as usize;
    assert_eq!(cells.len(), size * size);
    let want: Vec<usize> = (1..=size).collect();
    for r in 0..size {
        let mut row: Vec<usize> = (0..size).map(|c| cells[r * size + c]).collect();
        row.sort();
        assert_eq!(row, want);
    }
    for c in 0..size {
        let mut col: Vec<usize> = (0..size).map(|r| cells[r * size + c]).collect();
        col.sort();
        assert_eq!(col, want);
    }
    for br in 0..b {
        for bc in 0..b {
            let mut bx: Vec<usize> = (0..size)
                .map(|t| cells[(br * b + t / b) * size + bc * b + t % b])
                .collect();
            bx.sort();
            assert_eq!(bx, want);
        }
    }
}

// Every grid the enumeration returns is a complete valid solution that
// keeps the clues.
#[test]
fn enumerated_solutions_are_valid() {
    let cells = vec![1, 0, 0, 0, 0, 0, 1, 2, 0, 1, 0, 0, 0, 0, 0, 1];
    let mut board = board_4x4(cells.clone());
    let solutions = board.get_all_solutions();
    assert_eq!(board.cells, cells);
    assert!(!solutions.is_empty());
    for sol in &solutions {
        assert_valid_complete(4, sol);
        for i in 0..16 {
            if cells[i] != 0 {
                assert_eq!(sol[i], cells[i]);
            }
        }
    }
}

// The enumeration emits its solutions in ascending lexicographic order,
// with the solver's solution first.
#[test]
fn enumeration_order_is_lexicographic() {
    let cells = vec![0; 16];
    let mut board = board_4x4(cells.clone());
    let solutions = board.get_all_solutions();
    assert_eq!(solutions.len(), 288);
    for w in solutions.windows(2) {
        assert!(w[0] < w[1]);
    }
    let mut solver_board = board_4x4(cells);
    assert!(solver_board.solve_brute_force());
    assert_eq!(solver_board.cells, solutions[0]);
}

// Splitting at the first empty cell partitions the search: the union of
// the candidate boards' solution lists equals the full solution list as a
// set — the work distribution of the parallel enumeration.
#[test]
fn split_enumeration_matches_sequential() {
    let cells = vec![1, 0, 0, 0, 0, 0, 0, 2, 0, 3, 0, 0, 0, 0, 0, 0];
    let mut board = board_4x4(cells.clone());
    let mut sequential = board.get_all_solutions();
    let idx = board.find_first_empty().unwrap();
    assert_eq!(idx, 1);
    let tasks = board.candidate_boards(idx);
    let mut merged: Vec<Vec<usize>> = Vec::new();
    for mut task in tasks {
        merged.append(&mut task.get_all_solutions());
    }
    sequential.sort();
    merged.sort();
    assert_eq!(sequential, merged);
}

// A complete board has no split point and is its own only solution.
#[test]
fn complete_board_has_no_first_empty() {
    let cells = vec![1, 2, 3, 4, 3, 4, 1, 2, 2, 1, 4, 3, 4, 3, 2, 1];
    let mut board = board_4x4(cells.clone());
    assert!(board.find_first_empty().is_none());
    let solutions = board.get_all_solutions();
    assert_eq!(solutions, vec![cells]);
}

// Generation seeds exactly the requested number of mutually compatible
// clues and returns a board the solver accepts.
#[test]
fn generation_contract_small_board() {
    let generated = Board::generate_new_sudoku(4, 6);
    let board = generated.expect("a 4x4 board with 6 clues should generate");
    assert_eq!(board.size, 4);
    assert_eq!(board.fixed_cells.len(), 6);
    for &(idx, value) in &board.fixed_cells {
        assert!(idx < 16);
        assert!(1 <= value && value <= 4);
        assert_eq!(board.cells[idx], value);
    }
    let nonzero = board.cells.iter().filter(|&&v| v != 0).count();
    assert_eq!(nonzero, 6);
    assert!(board.check_if_possible());
}

// With no clues asked for, randomness never enters: generation must
// succeed exactly because the empty grid is solvable, returning the empty
// board itself.
#[test]
fn generate_zero_clues_is_deterministic() {
    let board = Board::generate_new_sudoku(4, 0).expect("the empty 4x4 grid is solvable");
    assert_eq!(board.size, 4);
    assert!(board.fixed_cells.is_empty());
    assert!(board.cells.iter().all(|&v| v == 0));
    assert!(board.check_if_possible());
}

// More clues than cells can never be seeded: generation must report
// failure rather than loop.
#[test]
fn generate_more_clues_than_cells_fails() {
    assert!(Board::generate_new_sudoku(4, 17).is_none());
}

// The executable shape checks agree with what the engine's contracts
// assume: side 5 is rejected (its truncated box scan would leave the
// grid), side 6 keeps the original's degenerate boxes but stays in range.
#[test]
fn shape_checks() {
    let good = Board { size: 4, cells: vec![0; 16], fixed_cells: vec![] };
    assert!(good.is_well_formed());
    let short = Board { size: 4, cells: vec![0; 15], fixed_cells: vec![] };
    assert!(!short.is_well_formed());
    let zero = Board { size: 0, cells: vec![], fixed_cells: vec![] };
    assert!(!zero.is_well_formed());
    assert!(!Board::is_valid_size(0));
    assert!(Board::is_valid_size(1));
    assert!(Board::is_valid_size(4));
    assert!(!Board::is_valid_size(5));
    assert!(Board::is_valid_size(6));
    assert!(Board::is_valid_size(9));
}

// The boundary where the clue count equals the full grid: random seeding
// must fill the whole board to succeed, which can exhaust the attempt
// budget; generation then reports failure instead of looping forever.
// When it does succeed the result is a complete valid grid.
#[test]
fn generation_full_grid_boundary() {
    match Board::generate_new_sudoku(9, 81) {
        Some(board) => {
            assert_eq!(board.fixed_cells.len(), 81);
            assert!(board.cells.iter().all(|&v| v != 0));
            assert_valid_complete(9, &board.cells);
        }
        None => {
            // The attempt budget was spent: the documented outcome for
            // this boundary.
        }
    }
}

fn puzzle_text() -> Vec<u8> {
    let lines = [
        "000450789",
        "406709000",
        "080000000",
        "200500001",
        "560091000",
        "090004067",
        "040070900",
        "070012040",
        "900300000",
    ];
    let mut text = Vec::new();
    for line in lines {
        text.extend_from_slice(line.as_bytes());
        text.push(b'\n');
    }
    text
}

// Importing a standard 30-clue puzzle: the digits land in reading order,
// the nonzero ones become clues, and the solver completes the grid into
// a full valid solution.
#[test]
fn import_and_solve_standard_puzzle() {
    let mut board = Board::import_from_text(&puzzle_text());
    assert_eq!(board.size, 9);
    assert_eq!(board.cells.len(), 81);
    assert_eq!(board.fixed_cells.len(), 30);
    let empty = board.cells.iter().filter(|&&v| v == 0).count();
    assert_eq!(empty, 51);
    for &(idx, value) in &board.fixed_cells {
        assert_eq!(board.cells[idx], value);
    }
    let clues = board.cells.clone();
    assert!(board.solve_brute_force());
    assert_valid_complete(9, &board.cells);
    for i in 0..81 {
        if clues[i] != 0 {
            assert_eq!(board.cells[i], clues[i]);
        }
    }
}

// Non-digit bytes are skipped; digits keep their reading order.
#[test]
fn import_skips_non_digits() {
    let text = b" 1 0 | 0 2 \n 0 0 | 0 0 \n".to_vec();
    let board = Board::import_from_text(&text);
    assert_eq!(board.size, 2);
    assert_eq!(board.cells, vec![1, 0, 0, 2, 0, 0, 0, 0]);
    assert_eq!(board.fixed_cells, vec![(0, 1), (3, 2)]);
}

// An empty import yields the empty board.
#[test]
fn import_empty_text() {
    let board = Board::import_from_text(&Vec::new());
    assert_eq!(board.size, 0);
    assert!(board.cells.is_empty());
    assert!(board.fixed_cells.is_empty());
}

// A board copy is independent: solving the copy leaves the original as
// it was, which is how the solvability check works.
#[test]
fn duplicate_is_independent() {
    let cells = vec![1, 0, 0, 0, 0, 0, 1, 2, 0, 1, 0, 0, 0, 0, 0, 1];
    let board = board_4x4(cells.clone());
    let mut copy = board.duplicate();
    assert!(copy.solve_brute_force());
    assert_eq!(board.cells, cells);
    assert!(board.check_if_possible());
    assert_eq!(board.cells, cells);
}
