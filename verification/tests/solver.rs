use sudoku_puzzles::{BacktrackingSolver, DefaultConstraint, Solution, Solver, Sudoku, SudokuGrid};

fn sudoku_of(rows: &[&[usize]]) -> Sudoku<DefaultConstraint> {
    let mut grid = SudokuGrid::new(2, 2).unwrap();
    for (row, digits) in rows.iter().enumerate() {
        for (column, digit) in digits.iter().enumerate() {
            if *digit != 0 {
                grid.set_cell(column, row, *digit).unwrap();
            }
        }
    }
    Sudoku::new_with_grid(grid, DefaultConstraint)
}

fn rows_of(grid: &SudokuGrid) -> Vec<Vec<usize>> {
    (0..grid.size())
        .map(|row| {
            (0..grid.size())
                .map(|column| grid.get_cell(column, row).unwrap().unwrap_or(0))
                .collect()
        })
        .collect()
}

#[test]
fn solver_finds_the_one_solution() {
    let puzzle = sudoku_of(&[&[0, 2, 3, 4], &[3, 0, 1, 2], &[2, 1, 0, 3], &[4, 3, 2, 0]]);
    match BacktrackingSolver.solve(&puzzle) {
        Solution::Unique(found) => assert_eq!(
            vec![vec![1, 2, 3, 4], vec![3, 4, 1, 2], vec![2, 1, 4, 3], vec![4, 3, 2, 1]],
            rows_of(&found)
        ),
        other => panic!("{:?}", other),
    }
    // the puzzle itself is left as it was
    assert_eq!(12, puzzle.grid().count_clues());
}

#[test]
fn solver_hands_back_a_full_grid() {
    let full = sudoku_of(&[&[1, 2, 3, 4], &[3, 4, 1, 2], &[2, 1, 4, 3], &[4, 3, 2, 1]]);
    match BacktrackingSolver.solve(&full) {
        Solution::Unique(found) => assert_eq!(rows_of(full.grid()), rows_of(&found)),
        other => panic!("{:?}", other),
    }
}

#[test]
fn solver_finds_several_solutions() {
    let empty = sudoku_of(&[&[0; 4], &[0; 4], &[0; 4], &[0; 4]]);
    assert!(matches!(BacktrackingSolver.solve(&empty), Solution::Ambiguous));
    // two ways to fill the lower half remain
    let two = sudoku_of(&[&[1, 2, 3, 4], &[3, 4, 1, 2], &[0, 0, 0, 0], &[0, 0, 0, 0]]);
    assert!(matches!(BacktrackingSolver.solve(&two), Solution::Ambiguous));
}

#[test]
fn solver_finds_no_solution() {
    // the last cell of the first row needs a 4, which its column already holds
    let stuck = sudoku_of(&[&[1, 2, 3, 0], &[0; 4], &[0; 4], &[0, 0, 0, 4]]);
    assert!(matches!(BacktrackingSolver.solve(&stuck), Solution::Impossible));
}

#[test]
fn solver_finds_the_one_solution_of_a_sparse_puzzle() {
    let puzzle = sudoku_of(&[&[1, 0, 0, 0], &[0, 0, 1, 2], &[0, 1, 4, 0], &[4, 0, 0, 0]]);
    match BacktrackingSolver.solve(&puzzle) {
        Solution::Unique(found) => {
            let rows = rows_of(&found);
            let solved = Sudoku::new_with_grid(found, DefaultConstraint);
            assert!(solved.is_valid());
            assert!(solved.grid().is_full());
            assert_eq!(vec![1, 2, 3, 4], rows[0]);
            assert_eq!(vec![3, 4, 1, 2], rows[1]);
            assert_eq!(vec![2, 1, 4, 3], rows[2]);
            assert_eq!(vec![4, 3, 2, 1], rows[3]);
        },
        other => panic!("{:?}", other),
    }
}
