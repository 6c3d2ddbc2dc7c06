use vstd::prelude::*;
use rand::Rng;
use rand::rngs::ThreadRng;
use crate::constraint::{keeps_validity, relaxes_on_removal, rule_of, valid, Constraint};
use crate::error::{SudokuError, SudokuResult};
use crate::grid::{lemma_position, GridView};
use crate::random::system_rng;
use crate::search::{
    completable,
    completes,
    entered,
    filled_in_order,
    lemma_filled_in_order_valid,
    lemma_valid_grid_satisfiable,
    prefix,
    satisfiable,
};
use crate::reduction::{
    coordinates,
    lemma_coordinates_cover,
    lemma_reduced_count,
    lemma_reduced_found_removable,
    lemma_reduced_takes_removable,
    lemma_reduced_unique,
    lemma_reduced_valid,
    lemma_reduced_within,
    reduced_along,
    removable,
};
use crate::shuffle::{picks_fit, shuffle, shuffled_by};
use crate::solver::{BacktrackingSolver, Solution, Solver};
use crate::sudoku::Sudoku;

verus! {

/// Fills whole grids at random. The random number generator decides in which
/// order the digits are tried for each cell.
pub struct Generator<R> {
    rng: R,
}

/// The digits `1..=size` in ascending order.
pub open spec fn digits_of(size: nat) -> Seq<usize> {
    Seq::new(size, |k: int| (k + 1) as usize)
}

/// Lists the digits `1..=size` in ascending order.
pub fn digits(size: usize) -> (list: Vec<usize>)
    ensures
        list@ == digits_of(size as nat),
{
    let mut list: Vec<usize> = Vec::new();
    let mut k: usize = 0;
    while k < size
        invariant
            k <= size,
            list@ == digits_of(k as nat),
        decreases size - k,
    {
        list.push(k + 1);
        k += 1;
        assert(list@ =~= digits_of(k as nat));
    }
    list
}

/// A rearrangement of the digits holds exactly the digits.
pub proof fn lemma_digits_rearranged(size: nat, candidates: Seq<usize>)
    requires
        candidates.to_multiset() == digits_of(size).to_multiset(),
        size <= usize::MAX,
    ensures
        forall|k: int|
            0 <= k < candidates.len() ==> 1 <= #[trigger] candidates[k] <= size,
        forall|number: usize| 1 <= number <= size ==> candidates.contains(number),
{
    let digits = digits_of(size);
    assert forall|k: int| 0 <= k < candidates.len() implies 1 <= #[trigger] candidates[k]
        <= size by {
        assert(candidates.contains(candidates[k]));
        vstd::seq_lib::to_multiset_contains(candidates, candidates[k]);
        vstd::seq_lib::to_multiset_contains(digits, candidates[k]);
        assert(digits.contains(candidates[k]));
        let i = choose|i: int| 0 <= i < digits.len() && digits[i] == candidates[k];
        assert(digits[i] == (i + 1) as usize);
    }
    assert forall|number: usize| 1 <= number <= size implies candidates.contains(number) by {
        assert(digits[number - 1] == number);
        assert(digits.contains(number));
        vstd::seq_lib::to_multiset_contains(candidates, number);
        vstd::seq_lib::to_multiset_contains(digits, number);
    }
}

impl Generator<ThreadRng> {
    /// Creates a generator that draws from the calling thread's system-seeded
    /// random number generator.
    pub fn new_default() -> Generator<ThreadRng> {
        Generator::new(system_rng())
    }
}

impl<R: Rng> Generator<R> {
    /// The random number generator that this generator draws from.
    pub closed spec fn rng(&self) -> R {
        self.rng
    }

    /// Creates a generator that draws from the given random number generator.
    pub fn new(rng: R) -> (generator: Generator<R>)
        ensures
            generator.rng() == rng,
    {
        Generator { rng }
    }

    /// Tries to fill the cells from the given one on, in row-major order, and
    /// says whether that was possible. If not, the grid is left as it was.
    fn generate_rec<C: Constraint + Clone>(
        &mut self,
        sudoku: &mut Sudoku<C>,
        column: usize,
        row: usize,
    ) -> (done: bool)
        requires
            old(sudoku).wf(),
            column < old(sudoku).grid@.size,
            row <= old(sudoku).grid@.size,
            row == old(sudoku).grid@.size ==> column == 0,
            prefix(old(sudoku).grid@, old(sudoku).grid@.position(column as int, row as int)) == old(
                sudoku,
            ).grid@,
        ensures
            final(sudoku).wf(),
            final(sudoku).constraint == old(sudoku).constraint,
            done == completable(
                old(sudoku).rule(),
                old(sudoku).grid@,
                old(sudoku).grid@.position(column as int, row as int),
            ),
            done ==> completes(
                old(sudoku).rule(),
                old(sudoku).grid@,
                old(sudoku).grid@.position(column as int, row as int),
                final(sudoku).grid@,
            ),
            !done ==> final(sudoku).grid@ == old(sudoku).grid@,
        decreases
                old(sudoku).grid@.cells.len() - old(sudoku).grid@.position(
                    column as int,
                    row as int,
                ),
    {
        let size: usize = sudoku.grid.size();
        let ghost start = sudoku.grid@;
        let ghost rule = sudoku.rule();
        let ghost position = start.position(column as int, row as int);

        if row == size {
            proof {
                assert(position == start.cells.len()) by (nonlinear_arith)
                    requires
                        position == row * size + column,
                        column == 0,
                        row == size,
                        start.cells.len() == size * size,
                ;
                assert(completes(rule, start, position, start));
            }
            return true;
        }
        proof {
            lemma_position(size as int, column as int, row as int);
        }
        let next_column: usize = (column + 1) % size;
        let next_row: usize = if next_column == 0 {
            row + 1
        } else {
            row
        };
        proof {
            if column + 1 == size {
                vstd::arithmetic::div_mod::lemma_mod_self_0(size as int);
                assert((row + 1) * size == row * size + size) by (nonlinear_arith);
            } else {
                vstd::arithmetic::div_mod::lemma_small_mod((column + 1) as nat, size as nat);
            }
            assert(start.position(next_column as int, next_row as int) == position + 1);
        }

        let candidates: Vec<usize> = shuffle(&mut self.rng, digits(size));
        proof {
            lemma_digits_rearranged(size as nat, candidates@);
        }
        let mut k: usize = 0;
        while k < candidates.len()
            invariant
                sudoku.wf(),
                sudoku.grid@ == start,
                start == old(sudoku).grid@,
                sudoku.constraint == old(sudoku).constraint,
                rule == rule_of(sudoku.constraint),
                rule == old(sudoku).rule(),
                size == start.size,
                column < size,
                row < size,
                next_column < size,
                next_row <= size,
                next_row == size ==> next_column == 0,
                position == start.position(column as int, row as int),
                start.position(next_column as int, next_row as int) == position + 1,
                0 <= position < start.cells.len(),
                start.column_of(position) == column,
                start.row_of(position) == row,
                prefix(start, position) == start,
                k <= candidates.len(),
                forall|i: int| 0 <= i < candidates.len() ==> 1 <= #[trigger] candidates[i] <= size,
                forall|i: int|
                    0 <= i < k ==> !(rule(start, column as int, row as int, #[trigger] candidates[i])
                        && completable(
                        rule,
                        start.put(column as int, row as int, candidates[i]),
                        position + 1,
                    )),
            decreases candidates.len() - k,
        {
            let number: usize = candidates[k];
            if sudoku.is_valid_number(column, row, number).unwrap() {
                sudoku.grid.set_cell(column, row, number).unwrap();
                let ghost tried = sudoku.grid@;
                proof {
                    assert(tried.position(next_column as int, next_row as int) == position + 1);
                    assert(tried.cells.len() == start.cells.len());
                    assert(prefix(tried, position + 1).cells =~= tried.cells) by {
                        assert forall|p: int| 0 <= p < tried.cells.len() implies prefix(
                            tried,
                            position + 1,
                        ).cells[p] == tried.cells[p] by {
                            if p > position {
                                assert(prefix(start, position).cells[p] is None);
                            }
                        }
                    }
                }
                if self.generate_rec(sudoku, next_column, next_row) {
                    proof {
                        let full = sudoku.grid@;
                        assert(prefix(full, position + 1).cells[position] == tried.cells[position]);
                        assert(prefix(full, position).cells =~= start.cells) by {
                            assert forall|p: int| 0 <= p < start.cells.len() implies prefix(
                                full,
                                position,
                            ).cells[p] == start.cells[p] by {
                                if p < position {
                                    assert(prefix(full, position + 1).cells[p] == tried.cells[p]);
                                } else {
                                    assert(prefix(start, position).cells[p] is None);
                                }
                            }
                        }
                        assert(prefix(full, position) == start);
                        assert(entered(rule, full, position));
                        assert forall|p: int| position <= p < full.cells.len() implies #[trigger] entered(
                            rule,
                            full,
                            p,
                        ) by {
                            if p > position {
                                assert(filled_in_order(rule, full, position + 1));
                            }
                        }
                        assert(completes(rule, start, position, full));
                        assert(completable(rule, start, position));
                    }
                    return true;
                }
                sudoku.grid.clear_cell(column, row).unwrap();
                proof {
                    assert(prefix(start, position).cells[position] is None);
                    assert(sudoku.grid@.cells =~= start.cells);
                }
            }
            k += 1;
        }
        proof {
            if completable(rule, start, position) {
                let full = choose|full: GridView| #[trigger] completes(rule, start, position, full);
                assert(entered(rule, full, position));
                let number = full.cells[position]->Some_0;
                assert(candidates@.contains(number));
                let i = choose|i: int| 0 <= i < candidates@.len() && candidates@[i] == number;
                let tried = start.put(column as int, row as int, number);
                assert(prefix(full, position + 1).cells =~= tried.cells) by {
                    assert forall|p: int| 0 <= p < tried.cells.len() implies prefix(
                        full,
                        position + 1,
                    ).cells[p] == tried.cells[p] by {
                        if p != position {
                            assert(prefix(full, position).cells[p] == start.cells[p]);
                        }
                    }
                }
                assert(prefix(full, position + 1) == tried);
                assert(filled_in_order(rule, full, position + 1)) by {
                    assert forall|p: int| position + 1 <= p < full.cells.len() implies #[trigger] entered(
                        rule,
                        full,
                        p,
                    ) by {
                        assert(filled_in_order(rule, full, position));
                    }
                }
                assert(completes(rule, tried, position + 1, full));
                assert(candidates[i] == number);
                assert(false);
            }
        }
        false
    }

    /// Fills an empty grid of the given block dimensions at random, under the
    /// given constraint: the cells are visited in row-major order, and for each
    /// the digits are tried in a shuffled order, going back to the cell before
    /// when none fits.
    ///
    /// Fails with `InvalidDimensions` exactly when a dimension is zero, and
    /// otherwise with `UnsatisfiableConstraint` exactly when no full grid can
    /// be reached in this way. The grid of a success is full, each of its
    /// digits was accepted by the constraint as it was entered, and under a
    /// constraint that keeps validity it is valid as a whole. Under a
    /// constraint that relaxes on removal, the search succeeds whenever a
    /// full and valid grid of these dimensions exists at all.
    pub fn generate<C: Constraint + Clone>(
        &mut self,
        block_width: usize,
        block_height: usize,
        constraint: C,
    ) -> (result: SudokuResult<Sudoku<C>>)
        requires
            block_width * block_height * (block_width * block_height) <= usize::MAX,
        ensures
            result is Ok <==> block_width > 0 && block_height > 0 && satisfiable(
                rule_of(constraint),
                block_width as nat,
                block_height as nat,
            ),
            match result {
                Ok(sudoku) => {
                    &&& sudoku.wf()
                    &&& sudoku.constraint == constraint
                    &&& sudoku.grid@.block_width == block_width
                    &&& sudoku.grid@.block_height == block_height
                    &&& sudoku.grid@.is_full()
                    &&& filled_in_order(rule_of(constraint), sudoku.grid@, 0)
                    &&& keeps_validity(rule_of(constraint)) ==> valid(
                        rule_of(constraint),
                        sudoku.grid@,
                    )
                },
                Err(e) => e == if block_width == 0 || block_height == 0 {
                    SudokuError::InvalidDimensions
                } else {
                    SudokuError::UnsatisfiableConstraint
                },
            },
            forall|full: GridView|
                block_width > 0 && block_height > 0 && relaxes_on_removal(rule_of(constraint))
                    && full.wf() && full.block_width == block_width && full.block_height
                    == block_height && full.is_full() && #[trigger] valid(
                    rule_of(constraint),
                    full,
                ) ==> result is Ok,
    {
        let mut sudoku = match Sudoku::new_empty(block_width, block_height, constraint) {
            Ok(sudoku) => sudoku,
            Err(e) => {
                return Err(e);
            },
        };
        let ghost start = sudoku.grid@;
        proof {
            assert(prefix(start, 0).cells =~= start.cells);
            assert(start.position(0, 0) == 0) by (nonlinear_arith)
                requires
                    start.position(0, 0) == 0 * start.size + 0,
            ;
            assert(start.size > 0) by (nonlinear_arith)
                requires
                    start.size == block_width * block_height,
                    block_width > 0,
                    block_height > 0,
            ;
        }
        if self.generate_rec(&mut sudoku, 0, 0) {
            proof {
                let full = sudoku.grid@;
                crate::search::lemma_filled_in_order_full(rule_of(constraint), full);
                if keeps_validity(rule_of(constraint)) {
                    lemma_filled_in_order_valid(rule_of(constraint), full);
                }
            }
            Ok(sudoku)
        } else {
            proof {
                assert forall|full: GridView|
                    relaxes_on_removal(rule_of(constraint)) && full.wf() && full.block_width
                        == block_width && full.block_height == block_height && full.is_full()
                        && #[trigger] valid(rule_of(constraint), full) implies false by {
                    lemma_valid_grid_satisfiable(rule_of(constraint), full);
                }
            }
            Err(SudokuError::UnsatisfiableConstraint)
        }
    }
}

/// Strips clues from a grid for as long as its solver still finds the grid
/// uniquely solvable. The solver sets the difficulty; the random number
/// generator decides in which order the cells are tried.
pub struct Reducer<S, R> {
    solver: S,
    rng: R,
}

/// Lists all cells of a grid as `(column, row)` pairs, column by column.
pub fn coordinate_list(size: usize) -> (list: Vec<(usize, usize)>)
    requires
        size * size <= usize::MAX,
    ensures
        list@ == coordinates(size as nat),
{
    let mut list: Vec<(usize, usize)> = Vec::new();
    let mut column: usize = 0;
    while column < size
        invariant
            column <= size,
            size * size <= usize::MAX,
            list@ == coordinates(size as nat).take(column * size),
            0 <= column * size <= size * size,
        decreases size - column,
    {
        let mut row: usize = 0;
        while row < size
            invariant
                column < size,
                row <= size,
                size * size <= usize::MAX,
                list@ == coordinates(size as nat).take(column * size + row),
                0 <= column * size + row <= size * size,
            decreases size - row,
        {
            proof {
                lemma_position(size as int, row as int, column as int);
            }
            list.push((column, row));
            row += 1;
            proof {
                assert(column * size + row <= size * size) by (nonlinear_arith)
                    requires
                        column < size,
                        row <= size,
                ;
                assert(list@ =~= coordinates(size as nat).take(column * size + row));
            }
        }
        column += 1;
        proof {
            assert((column - 1) * size + size == column * size) by (nonlinear_arith);
        }
    }
    proof {
        assert(list@ =~= coordinates(size as nat));
    }
    list
}

impl Reducer<BacktrackingSolver, ThreadRng> {
    /// Creates a reducer that keeps a clue only if an exhaustive search needs
    /// it, and that draws from the calling thread's system-seeded random
    /// number generator.
    pub fn new_default() -> (reducer: Reducer<BacktrackingSolver, ThreadRng>)
        ensures
            reducer.solver() == BacktrackingSolver,
    {
        Reducer::new(BacktrackingSolver, system_rng())
    }
}

impl<S: Solver, R: Rng> Reducer<S, R> {
    /// The solver that judges each trial.
    pub closed spec fn solver(&self) -> S {
        self.solver
    }

    /// The random number generator that this reducer draws from.
    pub closed spec fn rng(&self) -> R {
        self.rng
    }

    /// Creates a reducer that judges with the given solver and draws from
    /// the given random number generator.
    pub fn new(solver: S, rng: R) -> (reducer: Reducer<S, R>)
        ensures
            reducer.solver() == solver,
            reducer.rng() == rng,
    {
        Reducer { solver, rng }
    }

    /// Makes one greedy pass over the cells in the given order of
    /// `(column, row)` pairs. A cell that holds a digit is emptied; if the
    /// solver then no longer finds exactly one solution, the digit is put
    /// back. Empty cells and pairs outside the grid are passed over.
    pub fn reduce_in_order<C: Constraint + Clone>(
        &self,
        sudoku: &mut Sudoku<C>,
        order: &Vec<(usize, usize)>,
    )
        requires
            old(sudoku).wf(),
        ensures
            final(sudoku).wf(),
            final(sudoku).constraint == old(sudoku).constraint,
            final(sudoku).grid@ == reduced_along(
                self.solver(),
                old(sudoku).rule(),
                old(sudoku).grid@,
                order@,
            ),
    {
        let ghost start = sudoku.grid@;
        let ghost rule = sudoku.rule();
        let mut k: usize = 0;
        while k < order.len()
            invariant
                k <= order.len(),
                sudoku.wf(),
                sudoku.constraint == old(sudoku).constraint,
                rule == sudoku.rule(),
                sudoku.grid@ == reduced_along(self.solver(), rule, start, order@.take(k as int)),
            decreases order.len() - k,
        {
            let (column, row) = order[k];
            let ghost before = sudoku.grid@;
            proof {
                assert(order@.take(k + 1).drop_last() =~= order@.take(k as int));
                assert(order@.take(k + 1).last() == (column, row));
            }
            match sudoku.grid.get_cell(column, row) {
                Ok(Some(number)) => {
                    proof {
                        lemma_position(before.size as int, column as int, row as int);
                    }
                    sudoku.grid.clear_cell(column, row).unwrap();
                    match self.solver.solve(sudoku) {
                        Solution::Unique(_) => {},
                        _ => {
                            sudoku.grid.set_cell(column, row, number).unwrap();
                            proof {
                                assert(sudoku.grid@.cells =~= before.cells);
                            }
                        },
                    }
                },
                _ => {},
            }
            k += 1;
        }
        proof {
            assert(order@.take(k as int) =~= order@);
        }
    }

    /// Removes clues at random for as long as the solver still finds the
    /// puzzle uniquely solvable: the cells are shuffled once and then tried
    /// one after the other in a single greedy pass.
    ///
    /// The pass fills no cell and changes no digit. If it changed the grid,
    /// the solver calls the outcome uniquely solvable. It removes a clue
    /// exactly when some clue could be removed from the grid as it was
    /// given. Under a rule that relaxes on removal a valid grid stays valid.
    pub fn reduce<C: Constraint + Clone>(&mut self, sudoku: &mut Sudoku<C>)
        requires
            old(sudoku).wf(),
        ensures
            final(self).solver() == old(self).solver(),
            final(sudoku).wf(),
            final(sudoku).constraint == old(sudoku).constraint,
            exists|picks: Seq<usize>|
                picks_fit(old(sudoku).grid@.cells.len(), picks) && final(sudoku).grid@
                    == #[trigger] reduced_along(
                    old(self).solver(),
                    old(sudoku).rule(),
                    old(sudoku).grid@,
                    shuffled_by(coordinates(old(sudoku).grid@.size), picks),
                ),
            final(sudoku).grid@.within(old(sudoku).grid@),
            final(sudoku).grid@ != old(sudoku).grid@ ==> old(self).solver().verdict(
                old(sudoku).rule(),
                final(sudoku).grid@,
            ) is Unique,
            final(sudoku).grid@.clue_count() <= old(sudoku).grid@.clue_count(),
            final(sudoku).grid@.clue_count() < old(sudoku).grid@.clue_count() <==> exists|
                column: int,
                row: int,
            |
                removable(
                    old(self).solver(),
                    old(sudoku).rule(),
                    old(sudoku).grid@,
                    column,
                    row,
                ),
            relaxes_on_removal(old(sudoku).rule()) && valid(
                old(sudoku).rule(),
                old(sudoku).grid@,
            ) ==> valid(old(sudoku).rule(), final(sudoku).grid@),
    {
        let size: usize = sudoku.grid.size();
        let order: Vec<(usize, usize)> = shuffle(&mut self.rng, coordinate_list(size));
        proof {
            let solver = self.solver();
            let rule = sudoku.rule();
            let start = sudoku.grid@;
            lemma_reduced_within(solver, rule, start, order@);
            lemma_reduced_unique(solver, rule, start, order@);
            lemma_reduced_count(solver, rule, start, order@);
            if reduced_along(solver, rule, start, order@) != start {
                lemma_reduced_found_removable(solver, rule, start, order@);
            }
            if exists|column: int, row: int| removable(solver, rule, start, column, row) {
                let (column, row) = choose|column: int, row: int|
                    removable(solver, rule, start, column, row);
                let coordinate = (column as usize, row as usize);
                lemma_coordinates_cover(size as nat, coordinate.0, coordinate.1);
                vstd::seq_lib::to_multiset_contains(coordinates(size as nat), coordinate);
                vstd::seq_lib::to_multiset_contains(order@, coordinate);
                lemma_reduced_takes_removable(solver, rule, start, order@, coordinate);
            }
            if relaxes_on_removal(rule) && valid(rule, start) {
                lemma_reduced_valid(solver, rule, start, order@);
            }
        }
        self.reduce_in_order(sudoku, &order)
    }
}

} // verus!
