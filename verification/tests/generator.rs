use rand::rngs::StdRng;
use rand::SeedableRng;
use sudoku_puzzles::{
    BacktrackingSolver, Constraint, DefaultConstraint, Generator, Reducer, Solution, Solver,
    Sudoku, SudokuError, SudokuGrid,
};

const DEFAULT_BLOCK_WIDTH: usize = 3;
const DEFAULT_BLOCK_HEIGHT: usize = 3;

fn generate_default() -> Sudoku<DefaultConstraint> {
    let mut generator = Generator::new_default();
    generator
        .generate(DEFAULT_BLOCK_WIDTH, DEFAULT_BLOCK_HEIGHT, DefaultConstraint)
        .unwrap()
}

fn reduce_default() -> Sudoku<DefaultConstraint> {
    let mut sudoku = generate_default();
    let mut reducer = Reducer::new_default();
    reducer.reduce(&mut sudoku);
    sudoku
}

fn cells_of(grid: &SudokuGrid) -> Vec<Option<usize>> {
    let size = grid.size();
    let mut cells = Vec::new();
    for row in 0..size {
        for column in 0..size {
            cells.push(grid.get_cell(column, row).unwrap());
        }
    }
    cells
}

fn is_permutation(mut digits: Vec<usize>, size: usize) -> bool {
    digits.sort();
    digits == (1..=size).collect::<Vec<usize>>()
}

#[test]
fn generated_sudoku_valid() {
    let sudoku = generate_default();
    assert!(sudoku.is_valid(), "Generated Sudoku not valid.");
}

#[test]
fn generated_sudoku_full() {
    let sudoku = generate_default();
    let size = DEFAULT_BLOCK_WIDTH * DEFAULT_BLOCK_HEIGHT;
    assert_eq!(
        size * size,
        sudoku.grid().count_clues(),
        "Generated Sudoku is not full."
    );
}

#[test]
fn reduced_sudoku_valid_and_not_full() {
    let sudoku = reduce_default();
    let size = DEFAULT_BLOCK_WIDTH * DEFAULT_BLOCK_HEIGHT;
    assert!(sudoku.is_valid(), "Reduced Sudoku not valid.");
    assert!(
        sudoku.grid().count_clues() <= size * (size - 1),
        "Reduced Sudoku has too many clues."
    );
}

#[test]
fn reduced_sudoku_uniquely_solveable() {
    let sudoku = reduce_default();
    let solver = BacktrackingSolver;
    let solution = solver.solve(&sudoku);

    if let Solution::Unique(_) = solution {
    } else {
        panic!("Reduced Sudoku not uniquely solveable.")
    }
}

/// A deliberately weak solver which only looks at the top-left cell. If any
/// other cell is missing, or there are several options for the top-left cell,
/// it answers `Solution::Ambiguous`.
struct TopLeftSolver;

impl Solver for TopLeftSolver {
    fn solve<C: Constraint + Clone>(&self, sudoku: &Sudoku<C>) -> Solution {
        let size = sudoku.grid().size();
        let cells = size * size;
        let clues = sudoku.grid().count_clues();

        if clues == cells {
            return Solution::Unique(sudoku.grid().clone());
        } else if clues < cells - 1 {
            return Solution::Ambiguous;
        }

        if let Some(_) = sudoku.grid().get_cell(0, 0).unwrap() {
            Solution::Ambiguous
        } else {
            let mut number = None;

            for i in 1..=size {
                if sudoku.is_valid_number(0, 0, i).unwrap() {
                    if number == None {
                        number = Some(i);
                    } else {
                        return Solution::Ambiguous;
                    }
                }
            }

            if let Some(number) = number {
                let mut result_grid = sudoku.grid().clone();
                result_grid.set_cell(0, 0, number).unwrap();
                Solution::Unique(result_grid)
            } else {
                Solution::Impossible
            }
        }
    }
}

#[test]
fn reduced_sudoku_solveable_by_solver() {
    let mut sudoku = generate_default();
    let mut reducer = Reducer::new(TopLeftSolver, rand::thread_rng());
    reducer.reduce(&mut sudoku);

    let size = DEFAULT_BLOCK_WIDTH * DEFAULT_BLOCK_HEIGHT;
    assert_eq!(
        size * size - 1,
        sudoku.grid().count_clues(),
        "Reduced Sudoku missing too many clues or not reduced at all."
    );
    assert_eq!(
        None,
        sudoku.grid().get_cell(0, 0).unwrap(),
        "Reduced Sudoku missing wrong clue."
    );
}

#[test]
fn generated_groups_are_permutations() {
    let sudoku = generate_default();
    let grid = sudoku.grid();
    assert_eq!(81, grid.count_clues());
    for i in 0..9 {
        let row: Vec<usize> = (0..9).map(|c| grid.get_cell(c, i).unwrap().unwrap()).collect();
        let column: Vec<usize> = (0..9).map(|r| grid.get_cell(i, r).unwrap().unwrap()).collect();
        let block: Vec<usize> = (0..9)
            .map(|k| {
                grid.get_cell((i % 3) * 3 + k % 3, (i / 3) * 3 + k / 3)
                    .unwrap()
                    .unwrap()
            })
            .collect();
        assert!(is_permutation(row, 9));
        assert!(is_permutation(column, 9));
        assert!(is_permutation(block, 9));
    }
}

#[test]
fn generate_rejects_zero_block_width() {
    let mut generator = Generator::new_default();
    let result = generator.generate(0, 3, DefaultConstraint);
    assert!(matches!(result, Err(SudokuError::InvalidDimensions)));
}

#[test]
fn generate_rejects_zero_block_height() {
    let mut generator = Generator::new(StdRng::seed_from_u64(7));
    let result = generator.generate(3, 0, DefaultConstraint);
    assert!(matches!(result, Err(SudokuError::InvalidDimensions)));
}

/// Accepts nothing anywhere.
#[derive(Clone)]
struct Never;

impl Constraint for Never {
    fn check_number(&self, _: &SudokuGrid, _: usize, _: usize, _: usize) -> bool {
        false
    }
}

/// Accepts everything in the first row, and in the other rows only what
/// differs from the digit above; the last cell accepts nothing.
#[derive(Clone)]
struct DeadEnd;

impl Constraint for DeadEnd {
    fn check_number(&self, grid: &SudokuGrid, column: usize, row: usize, _: usize) -> bool {
        !(column == grid.size() - 1 && row == grid.size() - 1)
    }
}

/// Accepts in each cell only the digit `column + 1`.
#[derive(Clone)]
struct Stripes;

impl Constraint for Stripes {
    fn check_number(&self, _: &SudokuGrid, column: usize, _: usize, number: usize) -> bool {
        number == column + 1
    }
}

/// Accepts a digit only while the cell to its right is empty.
#[derive(Clone)]
struct Shy;

impl Constraint for Shy {
    fn check_number(&self, grid: &SudokuGrid, column: usize, row: usize, _: usize) -> bool {
        column + 1 == grid.size() || grid.get_cell(column + 1, row).unwrap().is_none()
    }
}

/// Accepts a digit only in a grid that holds a digit in its last cell, or
/// in that cell itself.
#[derive(Clone)]
struct Anchored;

impl Constraint for Anchored {
    fn check_number(&self, grid: &SudokuGrid, column: usize, row: usize, _: usize) -> bool {
        let last = grid.size() - 1;
        (column == last && row == last) || grid.get_cell(last, last).unwrap().is_some()
    }
}

#[test]
fn generate_under_a_rule_that_does_not_keep_validity() {
    // every digit is accepted as it is entered, but not once its neighbour is filled
    let sudoku = Generator::new_default().generate(2, 2, Shy).unwrap();
    assert_eq!(16, sudoku.grid().count_clues());
    assert!(!sudoku.is_valid());
    assert_eq!(Ok(false), sudoku.is_valid_cell(0, 0));
    assert_eq!(Ok(true), sudoku.is_valid_cell(3, 0));
}

#[test]
fn reduce_under_a_rule_that_does_not_relax_on_removal() {
    let mut grid = SudokuGrid::new(1, 2).unwrap();
    for (column, row) in [(0, 0), (1, 0), (0, 1), (1, 1)] {
        grid.set_cell(column, row, 1).unwrap();
    }
    let mut sudoku = Sudoku::new_with_grid(grid, Anchored);
    assert!(sudoku.is_valid());
    let reducer = Reducer::new(Believer, rand::thread_rng());
    reducer.reduce_in_order(&mut sudoku, &vec![(1, 1)]);
    assert_eq!(3, sudoku.grid().count_clues());
    assert!(!sudoku.is_valid());
}

#[test]
fn generate_reports_unsatisfiable_constraint() {
    let mut generator = Generator::new_default();
    let result = generator.generate(2, 2, Never);
    assert!(matches!(result, Err(SudokuError::UnsatisfiableConstraint)));
}

#[test]
fn generate_exhausts_the_search_before_giving_up() {
    let mut generator = Generator::new(StdRng::seed_from_u64(1));
    let result = generator.generate(2, 1, DeadEnd);
    assert!(matches!(result, Err(SudokuError::UnsatisfiableConstraint)));
}

#[test]
fn generate_finds_the_only_grid() {
    let mut generator = Generator::new_default();
    let sudoku = generator.generate(2, 2, Stripes).unwrap();
    let expected: Vec<Option<usize>> = (0..16).map(|p| Some(p % 4 + 1)).collect();
    assert_eq!(expected, cells_of(sudoku.grid()));
}

#[test]
fn generate_smallest_grid() {
    let mut generator = Generator::new_default();
    let sudoku = generator.generate(1, 1, DefaultConstraint).unwrap();
    assert_eq!(1, sudoku.grid().size());
    assert_eq!(Some(1), sudoku.grid().get_cell(0, 0).unwrap());
    assert!(sudoku.is_valid());
}

#[test]
fn generate_rectangular_blocks() {
    let mut generator = Generator::new_default();
    let sudoku = generator.generate(3, 2, DefaultConstraint).unwrap();
    let grid = sudoku.grid();
    assert_eq!(6, grid.size());
    assert_eq!(3, grid.block_width());
    assert_eq!(2, grid.block_height());
    assert_eq!(36, grid.count_clues());
    assert!(sudoku.is_valid());
    for block in 0..6 {
        let left = (block % 2) * 3;
        let top = (block / 2) * 2;
        let digits: Vec<usize> = (0..6)
            .map(|k| grid.get_cell(left + k % 3, top + k / 3).unwrap().unwrap())
            .collect();
        assert!(is_permutation(digits, 6));
    }
}

#[test]
fn generate_is_reproducible_with_a_seed() {
    let first = Generator::new(StdRng::seed_from_u64(42))
        .generate(3, 3, DefaultConstraint)
        .unwrap();
    let second = Generator::new(StdRng::seed_from_u64(42))
        .generate(3, 3, DefaultConstraint)
        .unwrap();
    assert_eq!(cells_of(first.grid()), cells_of(second.grid()));
}

#[test]
fn reduce_only_removes() {
    let mut sudoku = generate_default();
    let before = cells_of(sudoku.grid());
    let mut reducer = Reducer::new_default();
    reducer.reduce(&mut sudoku);
    let after = cells_of(sudoku.grid());
    assert_eq!(before.len(), after.len());
    for p in 0..before.len() {
        assert!(after[p].is_none() || after[p] == before[p]);
    }
    assert!(sudoku.grid().count_clues() < 81);
}

#[test]
fn reduced_sudoku_solves_to_the_filled_grid() {
    let mut sudoku = generate_default();
    let filled = cells_of(sudoku.grid());
    let mut reducer = Reducer::new(BacktrackingSolver, StdRng::seed_from_u64(3));
    reducer.reduce(&mut sudoku);
    match BacktrackingSolver.solve(&sudoku) {
        Solution::Unique(found) => assert_eq!(filled, cells_of(&found)),
        _ => panic!("not uniquely solvable"),
    }
}

#[test]
fn reduced_sudoku_has_no_spare_clue() {
    let mut sudoku = Generator::new(StdRng::seed_from_u64(11))
        .generate(2, 2, DefaultConstraint)
        .unwrap();
    let mut reducer = Reducer::new(BacktrackingSolver, StdRng::seed_from_u64(12));
    reducer.reduce(&mut sudoku);
    for row in 0..4 {
        for column in 0..4 {
            if let Some(number) = sudoku.grid().get_cell(column, row).unwrap() {
                let mut grid = sudoku.grid().clone();
                grid.clear_cell(column, row).unwrap();
                let trial = Sudoku::new_with_grid(grid, DefaultConstraint);
                assert!(!matches!(BacktrackingSolver.solve(&trial), Solution::Unique(_)));
                assert!(number >= 1 && number <= 4);
            }
        }
    }
}

/// Calls everything ambiguous.
struct Refuser;

impl Solver for Refuser {
    fn solve<C: Constraint + Clone>(&self, _: &Sudoku<C>) -> Solution {
        Solution::Ambiguous
    }
}

/// Calls everything impossible.
struct Denier;

impl Solver for Denier {
    fn solve<C: Constraint + Clone>(&self, _: &Sudoku<C>) -> Solution {
        Solution::Impossible
    }
}

/// Calls everything uniquely solvable.
struct Believer;

impl Solver for Believer {
    fn solve<C: Constraint + Clone>(&self, sudoku: &Sudoku<C>) -> Solution {
        Solution::Unique(sudoku.grid().clone())
    }
}

#[test]
fn reduce_restores_every_clue_that_the_solver_needs() {
    let mut sudoku = generate_default();
    let before = cells_of(sudoku.grid());
    Reducer::new(Refuser, rand::thread_rng()).reduce(&mut sudoku);
    assert_eq!(before, cells_of(sudoku.grid()));
    Reducer::new(Denier, rand::thread_rng()).reduce(&mut sudoku);
    assert_eq!(before, cells_of(sudoku.grid()));
}

#[test]
fn reduce_removes_every_clue_that_the_solver_spares() {
    let mut sudoku = generate_default();
    Reducer::new(Believer, rand::thread_rng()).reduce(&mut sudoku);
    assert_eq!(0, sudoku.grid().count_clues());
    assert!(sudoku.grid().is_empty());
}

#[test]
fn reduce_in_order_follows_the_order() {
    let mut sudoku = Generator::new_default()
        .generate(2, 2, DefaultConstraint)
        .unwrap();
    let before = cells_of(sudoku.grid());
    let reducer = Reducer::new(TopLeftSolver, rand::thread_rng());
    // the top-left cell comes last: by then nothing else was removable
    let order = vec![(1, 0), (3, 3), (0, 1), (0, 0), (2, 2)];
    reducer.reduce_in_order(&mut sudoku, &order);
    let mut expected = before.clone();
    expected[0] = None;
    assert_eq!(expected, cells_of(sudoku.grid()));
    // a second pass finds nothing more, and skips the empty cell and pairs outside
    reducer.reduce_in_order(&mut sudoku, &vec![(0, 0), (4, 0), (0, 9), (1, 1)]);
    assert_eq!(expected, cells_of(sudoku.grid()));
}

#[test]
fn reduce_in_order_with_believer_clears_listed_cells_only() {
    let mut sudoku = Generator::new_default()
        .generate(2, 2, DefaultConstraint)
        .unwrap();
    let before = cells_of(sudoku.grid());
    let reducer = Reducer::new(Believer, rand::thread_rng());
    reducer.reduce_in_order(&mut sudoku, &vec![(1, 0), (2, 3)]);
    let mut expected = before.clone();
    expected[1] = None;
    expected[3 * 4 + 2] = None;
    assert_eq!(expected, cells_of(sudoku.grid()));
    assert_eq!(14, sudoku.grid().count_clues());
}
