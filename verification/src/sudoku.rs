use vstd::prelude::*;
use crate::constraint::{cell_valid, rule_of, valid, Constraint, Rule};
use crate::error::{SudokuError, SudokuResult};
use crate::grid::{empty_grid, lemma_position, SudokuGrid};

verus! {

/// A grid together with the rule set that its digits are held to.
pub struct Sudoku<C: Constraint + Clone> {
    pub grid: SudokuGrid,
    pub constraint: C,
}

/// Whether the digit in the given cell of `scratch`, if there is one, is
/// accepted given the rest of the grid. The grid is handed back as it came.
fn check_position<C: Constraint>(
    constraint: &C,
    scratch: &mut SudokuGrid,
    column: usize,
    row: usize,
) -> (ok: bool)
    requires
        old(scratch).wf(),
        old(scratch)@.contains(column as int, row as int),
    ensures
        final(scratch)@ == old(scratch)@,
        ok == cell_valid(
            rule_of(*constraint),
            old(scratch)@,
            old(scratch)@.position(column as int, row as int),
        ),
{
    let ghost before = scratch@;
    proof {
        lemma_position(before.size as int, column as int, row as int);
    }
    match scratch.get_cell(column, row) {
        Ok(Some(number)) => {
            let cleared = scratch.clear_cell(column, row);
            let ok: bool = constraint.check_number(scratch, column, row, number);
            let restored = scratch.set_cell(column, row, number);
            proof {
                assert(scratch@.cells =~= before.cells);
            }
            ok
        },
        _ => true,
    }
}

impl<C: Constraint + Clone> Sudoku<C> {
    pub open spec fn wf(&self) -> bool {
        self.grid.wf()
    }

    /// The rule of this puzzle's constraint.
    pub open spec fn rule(&self) -> Rule {
        rule_of(self.constraint)
    }

    /// Creates a puzzle with an empty grid of the given block dimensions.
    /// Fails exactly when one of the two is zero.
    pub fn new_empty(block_width: usize, block_height: usize, constraint: C) -> (result:
        SudokuResult<Sudoku<C>>)
        requires
            block_width * block_height * (block_width * block_height) <= usize::MAX,
        ensures
            match result {
                Ok(sudoku) => block_width > 0 && block_height > 0 && sudoku.wf() && sudoku.grid@
                    == empty_grid(block_width as nat, block_height as nat) && sudoku.constraint
                    == constraint,
                Err(e) => e == SudokuError::InvalidDimensions && (block_width == 0 || block_height
                    == 0),
            },
    {
        match SudokuGrid::new(block_width, block_height) {
            Ok(grid) => Ok(Sudoku { grid, constraint }),
            Err(e) => Err(e),
        }
    }

    /// Puts a grid and a constraint together.
    pub fn new_with_grid(grid: SudokuGrid, constraint: C) -> (sudoku: Sudoku<C>)
        ensures
            sudoku.grid == grid,
            sudoku.constraint == constraint,
    {
        Sudoku { grid, constraint }
    }

    pub fn grid(&self) -> (grid: &SudokuGrid)
        ensures
            *grid == self.grid,
    {
        &self.grid
    }

    pub fn grid_mut(&mut self) -> (grid: &mut SudokuGrid)
        ensures
            *grid == old(self).grid,
            final(self).grid == *final(grid),
            final(self).constraint == old(self).constraint,
    {
        &mut self.grid
    }

    pub fn constraint(&self) -> (constraint: &C)
        ensures
            *constraint == self.constraint,
    {
        &self.constraint
    }

    /// Whether the constraint would accept `number` in the given cell, as the
    /// grid stands. A cell outside the grid is refused first, then a number
    /// outside `1..=size`.
    pub fn is_valid_number(&self, column: usize, row: usize, number: usize) -> (result:
        SudokuResult<bool>)
        requires
            self.wf(),
        ensures
            match result {
                Ok(ok) => self.grid@.contains(column as int, row as int) && 1 <= number
                    <= self.grid@.size && ok == self.constraint.accepts(
                    self.grid@,
                    column as int,
                    row as int,
                    number,
                ),
                Err(e) => if !self.grid@.contains(column as int, row as int) {
                    e == SudokuError::OutOfBounds
                } else {
                    e == SudokuError::InvalidNumber && !(1 <= number <= self.grid@.size)
                },
            },
    {
        let size: usize = self.grid.size();
        if column >= size || row >= size {
            Err(SudokuError::OutOfBounds)
        } else if number == 0 || number > size {
            Err(SudokuError::InvalidNumber)
        } else {
            Ok(self.constraint.check_number(&self.grid, column, row, number))
        }
    }

    /// Whether the given cell is empty or holds a digit that the constraint
    /// accepts given the rest of the grid. Fails exactly when the cell lies
    /// outside the grid.
    pub fn is_valid_cell(&self, column: usize, row: usize) -> (result: SudokuResult<bool>)
        requires
            self.wf(),
        ensures
            match result {
                Ok(ok) => self.grid@.contains(column as int, row as int) && ok == cell_valid(
                    self.rule(),
                    self.grid@,
                    self.grid@.position(column as int, row as int),
                ),
                Err(e) => e == SudokuError::OutOfBounds && !self.grid@.contains(
                    column as int,
                    row as int,
                ),
            },
    {
        let size: usize = self.grid.size();
        if column >= size || row >= size {
            return Err(SudokuError::OutOfBounds);
        }
        let mut scratch = self.grid.clone();
        Ok(check_position(&self.constraint, &mut scratch, column, row))
    }

    /// Whether every digit of the grid is accepted by the constraint given
    /// the rest of the grid.
    pub fn is_valid(&self) -> (ok: bool)
        requires
            self.wf(),
        ensures
            ok == valid(self.rule(), self.grid@),
    {
        let size: usize = self.grid.size();
        let mut scratch = self.grid.clone();
        let mut row: usize = 0;
        while row < size
            invariant
                self.wf(),
                size == self.grid@.size,
                scratch@ == self.grid@,
                row <= size,
                forall|p: int| 0 <= p < row * size ==> #[trigger] cell_valid(self.rule(), self.grid@, p),
            decreases size - row,
        {
            let mut column: usize = 0;
            while column < size
                invariant
                    self.wf(),
                    size == self.grid@.size,
                    scratch@ == self.grid@,
                    row < size,
                    column <= size,
                    forall|p: int|
                        0 <= p < row * size + column ==> #[trigger] cell_valid(
                            self.rule(),
                            self.grid@,
                            p,
                        ),
                decreases size - column,
            {
                let cell_ok: bool = check_position(&self.constraint, &mut scratch, column, row);
                if !cell_ok {
                    proof {
                        lemma_position(size as int, column as int, row as int);
                    }
                    return false;
                }
                column += 1;
            }
            row += 1;
            assert((row - 1) * size + size == row * size) by (nonlinear_arith);
        }
        true
    }
}

} // verus!
