use vstd::prelude::*;
use crate::constraint::{
    cell_valid, keeps_validity, relaxes_on_removal, rule_of, valid, Constraint, Rule,
};
use crate::grid::{lemma_coordinates, lemma_position, GridView, SudokuGrid};
use crate::sudoku::Sudoku;

verus! {

/// What a solver found out about a puzzle.
#[derive(Debug)]
pub enum Solution {
    /// No way to fill the empty cells exists.
    Impossible,
    /// Exactly one way to fill the empty cells exists: this one.
    Unique(SudokuGrid),
    /// Two or more ways to fill the empty cells exist.
    Ambiguous,
}

/// A `Solution` as a mathematical value.
pub enum Verdict {
    Impossible,
    Unique(GridView),
    Ambiguous,
}

impl View for Solution {
    type V = Verdict;

    open spec fn view(&self) -> Verdict {
        match *self {
            Solution::Impossible => Verdict::Impossible,
            Solution::Unique(grid) => Verdict::Unique(grid@),
            Solution::Ambiguous => Verdict::Ambiguous,
        }
    }
}

/// A strategy that decides whether a puzzle has no, one or several solutions.
/// A weak strategy may call a puzzle ambiguous that a stronger one solves.
pub trait Solver {
    /// What `solve` answers for a grid under a rule. The answer depends on
    /// nothing else; a solver says here what it is.
    closed spec fn verdict(&self, rule: Rule, grid: GridView) -> Verdict {
        arbitrary()
    }

    fn solve<C: Constraint + Clone>(&self, sudoku: &Sudoku<C>) -> (solution: Solution)
        requires
            sudoku.wf(),
        ensures
            solution@ == self.verdict(sudoku.rule(), sudoku.grid@),
    ;
}

/// The verdict on a collection of grids, given by the test that its members
/// pass: impossible if there is none, unique if there is one, else ambiguous.
pub open spec fn verdict_of(fits: spec_fn(GridView) -> bool) -> Verdict {
    if forall|g: GridView| !#[trigger] fits(g) {
        Verdict::Impossible
    } else if exists|a: GridView, b: GridView| #[trigger] fits(a) && #[trigger] fits(b) && a != b {
        Verdict::Ambiguous
    } else {
        Verdict::Unique(choose|g: GridView| #[trigger] fits(g))
    }
}

/// The verdict on two collections that share no member, from the verdicts on
/// each.
pub open spec fn merged(first: Verdict, second: Verdict) -> Verdict {
    match (first, second) {
        (Verdict::Impossible, _) => second,
        (_, Verdict::Impossible) => first,
        _ => Verdict::Ambiguous,
    }
}

pub proof fn lemma_verdict_none(fits: spec_fn(GridView) -> bool)
    requires
        forall|g: GridView| !#[trigger] fits(g),
    ensures
        verdict_of(fits) == Verdict::Impossible,
{
}

pub proof fn lemma_verdict_single(fits: spec_fn(GridView) -> bool, only: GridView)
    requires
        fits(only),
        forall|g: GridView| #[trigger] fits(g) ==> g == only,
    ensures
        verdict_of(fits) == Verdict::Unique(only),
{
    let chosen = choose|g: GridView| #[trigger] fits(g);
    assert(fits(chosen));
}

pub proof fn lemma_verdict_same(first: spec_fn(GridView) -> bool, second: spec_fn(GridView) -> bool)
    requires
        forall|g: GridView| #[trigger] first(g) <==> #[trigger] second(g),
    ensures
        verdict_of(first) == verdict_of(second),
{
    if exists|g: GridView| #[trigger] first(g) {
        let a = choose|g: GridView| #[trigger] first(g);
        let b = choose|g: GridView| #[trigger] second(g);
        assert(second(a));
        assert(second(b));
        assert(first(b));
        if exists|x: GridView, y: GridView| #[trigger] first(x) && #[trigger] first(y) && x != y {
            let (x, y) = choose|x: GridView, y: GridView|
                #[trigger] first(x) && #[trigger] first(y) && x != y;
            assert(second(x) && second(y));
        } else {
            if exists|x: GridView, y: GridView|
                #[trigger] second(x) && #[trigger] second(y) && x != y {
                let (x, y) = choose|x: GridView, y: GridView|
                    #[trigger] second(x) && #[trigger] second(y) && x != y;
                assert(first(x) && first(y));
            }
            assert(a == b);
        }
    } else {
        assert forall|g: GridView| !#[trigger] second(g) by {
            assert(!first(g));
        }
    }
}

/// The verdict on the union of two collections that share no member.
pub proof fn lemma_verdict_union(
    first: spec_fn(GridView) -> bool,
    second: spec_fn(GridView) -> bool,
    both: spec_fn(GridView) -> bool,
)
    requires
        forall|g: GridView| #[trigger] both(g) <==> (first(g) || second(g)),
        forall|g: GridView| !(#[trigger] first(g) && second(g)),
    ensures
        verdict_of(both) == merged(verdict_of(first), verdict_of(second)),
{
    if forall|g: GridView| !#[trigger] first(g) {
        assert forall|g: GridView| #[trigger] both(g) <==> #[trigger] second(g) by {
            assert(!first(g));
        }
        lemma_verdict_same(both, second);
    } else if forall|g: GridView| !#[trigger] second(g) {
        assert forall|g: GridView| #[trigger] both(g) <==> #[trigger] first(g) by {
            assert(!second(g));
        }
        lemma_verdict_same(both, first);
    } else {
        let a = choose|g: GridView| #[trigger] first(g);
        let b = choose|g: GridView| #[trigger] second(g);
        assert(first(a) && second(b));
        assert(!(first(a) && second(a)));
        assert(a != b);
        assert(both(a) && both(b));
    }
}

/// A collection that holds an ambiguous one is ambiguous.
pub proof fn lemma_verdict_grows(part: spec_fn(GridView) -> bool, whole: spec_fn(GridView) -> bool)
    requires
        forall|g: GridView| #[trigger] part(g) ==> whole(g),
        verdict_of(part) == Verdict::Ambiguous,
    ensures
        verdict_of(whole) == Verdict::Ambiguous,
{
    let (x, y) = choose|x: GridView, y: GridView|
        #[trigger] part(x) && #[trigger] part(y) && x != y;
    assert(whole(x) && whole(y));
}

/// The cells before `from` taken from `full`, the others from `grid`.
pub open spec fn overlay(grid: GridView, full: GridView, from: int) -> GridView {
    GridView {
        cells: Seq::new(
            grid.cells.len(),
            |p: int|
                if p < from {
                    full.cells[p]
                } else {
                    grid.cells[p]
                },
        ),
        ..grid
    }
}

/// At `position`, `full` keeps the digit of `grid`, or, where `grid` is empty,
/// holds a digit in `1..=size` that the rule accepts for the grid in which the
/// empty cells before the position are filled as in `full`.
pub open spec fn settled(rule: Rule, grid: GridView, full: GridView, position: int) -> bool {
    match grid.cells[position] {
        Some(number) => full.cells[position] == Some(number),
        None => match full.cells[position] {
            Some(number) => 1 <= number <= grid.size && rule(
                overlay(grid, full, position),
                grid.column_of(position),
                grid.row_of(position),
                number,
            ),
            None => false,
        },
    }
}

/// `full` agrees with `grid` before position `from` and settles every
/// position from there on.
pub open spec fn solves_from(rule: Rule, grid: GridView, from: int, full: GridView) -> bool {
    &&& full.wf()
    &&& full.block_width == grid.block_width
    &&& full.block_height == grid.block_height
    &&& full.size == grid.size
    &&& full.cells.len() == grid.cells.len()
    &&& forall|p: int| 0 <= p < from && p < grid.cells.len() ==> #[trigger] full.cells[p] == grid.cells[p]
    &&& forall|p: int| from <= p < grid.cells.len() ==> #[trigger] settled(rule, grid, full, p)
}

/// `full` is a solution of `grid`: it keeps the clues, and fills the empty
/// cells in row-major order with digits that the rule accepts as they are
/// entered.
pub open spec fn solves(rule: Rule, grid: GridView, full: GridView) -> bool {
    solves_from(rule, grid, 0, full)
}

/// The test for the solutions of `grid` that agree with it before `from`.
pub open spec fn solutions_from(rule: Rule, grid: GridView, from: int) -> spec_fn(GridView) -> bool {
    |full: GridView| solves_from(rule, grid, from, full)
}

/// The test for those of them whose digit at `from` is below `bound`.
pub open spec fn solutions_below(rule: Rule, grid: GridView, from: int, bound: int) -> spec_fn(
    GridView,
) -> bool {
    |full: GridView|
        solves_from(rule, grid, from, full) && match full.cells[from] {
            Some(number) => number < bound,
            None => false,
        }
}

/// What an exhaustive search finds for `grid` under `rule`.
pub open spec fn search_verdict(rule: Rule, grid: GridView) -> Verdict {
    verdict_of(solutions_from(rule, grid, 0))
}

/// Past a clue, the solutions are those of the next position.
pub proof fn lemma_step_clue(rule: Rule, grid: GridView, position: int, full: GridView)
    requires
        0 <= position < grid.cells.len(),
        grid.cells[position] is Some,
    ensures
        solves_from(rule, grid, position, full) == solves_from(rule, grid, position + 1, full),
{
    if solves_from(rule, grid, position, full) {
        assert(settled(rule, grid, full, position));
        assert forall|p: int| position + 1 <= p < grid.cells.len() implies #[trigger] settled(
            rule,
            grid,
            full,
            p,
        ) by {}
    }
    if solves_from(rule, grid, position + 1, full) {
        assert(full.cells[position] == grid.cells[position]);
        assert forall|p: int| position <= p < grid.cells.len() implies #[trigger] settled(
            rule,
            grid,
            full,
            p,
        ) by {}
    }
}

/// At an empty cell, the solutions with a given digit there are those of the
/// grid with the digit entered, if the rule accepts it, and none otherwise.
pub proof fn lemma_step_blank(
    rule: Rule,
    grid: GridView,
    position: int,
    number: usize,
    full: GridView,
)
    requires
        0 <= position < grid.cells.len(),
        grid.cells[position] is None,
    ensures
        (solves_from(rule, grid, position, full) && full.cells[position] == Some(number)) == (1
            <= number <= grid.size && rule(
            grid,
            grid.column_of(position),
            grid.row_of(position),
            number,
        ) && solves_from(rule, grid.with_content(position, Some(number)), position + 1, full)),
{
    let entered = grid.with_content(position, Some(number));
    if solves_from(rule, grid, position, full) && full.cells[position] == Some(number) {
        assert(settled(rule, grid, full, position));
        assert(overlay(grid, full, position).cells =~= grid.cells);
        assert(overlay(grid, full, position) == grid);
        assert forall|p: int| 0 <= p < position + 1 && p < entered.cells.len() implies #[trigger] full.cells[p]
            == entered.cells[p] by {}
        assert forall|p: int| position + 1 <= p < entered.cells.len() implies #[trigger] settled(
            rule,
            entered,
            full,
            p,
        ) by {
            assert(settled(rule, grid, full, p));
            assert(overlay(entered, full, p).cells =~= overlay(grid, full, p).cells);
            assert(overlay(entered, full, p) == overlay(grid, full, p));
        }
    }
    if 1 <= number <= grid.size && rule(
        grid,
        grid.column_of(position),
        grid.row_of(position),
        number,
    ) && solves_from(rule, entered, position + 1, full) {
        assert(full.cells[position] == entered.cells[position]);
        assert forall|p: int| 0 <= p < position && p < grid.cells.len() implies #[trigger] full.cells[p]
            == grid.cells[p] by {
            assert(full.cells[p] == entered.cells[p]);
        }
        assert(overlay(grid, full, position).cells =~= grid.cells);
        assert(overlay(grid, full, position) == grid);
        assert forall|p: int| position <= p < grid.cells.len() implies #[trigger] settled(
            rule,
            grid,
            full,
            p,
        ) by {
            if p > position {
                assert(settled(rule, entered, full, p));
                assert(overlay(entered, full, p).cells =~= overlay(grid, full, p).cells);
                assert(overlay(entered, full, p) == overlay(grid, full, p));
            }
        }
    }
}

fn combine(first: Solution, second: Solution) -> (both: Solution)
    ensures
        both@ == merged(first@, second@),
{
    match first {
        Solution::Impossible => second,
        Solution::Ambiguous => Solution::Ambiguous,
        Solution::Unique(grid) => match second {
            Solution::Impossible => Solution::Unique(grid),
            _ => Solution::Ambiguous,
        },
    }
}

/// A solver that tries every digit in every empty cell, in row-major order,
/// and so finds every solution there is.
#[derive(Clone, Copy, Debug)]
pub struct BacktrackingSolver;

impl BacktrackingSolver {
    fn solve_rec<C: Constraint>(
        constraint: &C,
        scratch: &mut SudokuGrid,
        column: usize,
        row: usize,
    ) -> (solution: Solution)
        requires
            old(scratch).wf(),
            column < old(scratch)@.size,
            row <= old(scratch)@.size,
            row == old(scratch)@.size ==> column == 0,
        ensures
            final(scratch)@ == old(scratch)@,
            solution@ == verdict_of(
                solutions_from(
                    rule_of(*constraint),
                    old(scratch)@,
                    old(scratch)@.position(column as int, row as int),
                ),
            ),
        decreases old(scratch)@.cells.len() - old(scratch)@.position(column as int, row as int),
    {
        let size: usize = scratch.size();
        let ghost start = scratch@;
        let ghost rule = rule_of(*constraint);
        let ghost position = start.position(column as int, row as int);

        if row == size {
            let found = scratch.clone();
            proof {
                assert(position == start.cells.len()) by (nonlinear_arith)
                    requires
                        position == row * size + column,
                        column == 0,
                        row == size,
                        start.cells.len() == size * size,
                ;
                let fits = solutions_from(rule, start, position);
                assert(fits(start));
                assert forall|g: GridView| #[trigger] fits(g) implies g == start by {
                    assert(g.cells =~= start.cells);
                }
                lemma_verdict_single(fits, start);
            }
            return Solution::Unique(found);
        }
        proof {
            lemma_position(size as int, column as int, row as int);
        }
        let next_column: usize = (column + 1) % size;
        let next_row: usize = if next_column == 0 {
            row + 1
        } else {
            row
        };
        proof {
            if column + 1 == size {
                vstd::arithmetic::div_mod::lemma_mod_self_0(size as int);
                assert((row + 1) * size == row * size + size) by (nonlinear_arith);
            } else {
                vstd::arithmetic::div_mod::lemma_small_mod((column + 1) as nat, size as nat);
            }
            assert(start.position(next_column as int, next_row as int) == position + 1);
        }
        let content = scratch.get_cell(column, row).unwrap();
        if content.is_some() {
            let solution = Self::solve_rec(constraint, scratch, next_column, next_row);
            proof {
                assert forall|g: GridView| #[trigger]
                    solutions_from(rule, start, position)(g) <==> #[trigger] solutions_from(
                        rule,
                        start,
                        position + 1,
                    )(g) by {
                    lemma_step_clue(rule, start, position, g);
                }
                lemma_verdict_same(
                    solutions_from(rule, start, position),
                    solutions_from(rule, start, position + 1),
                );
            }
            return solution;
        }
        let mut solution = Solution::Impossible;
        let mut number: usize = 1;
        proof {
            assert(size < usize::MAX) by (nonlinear_arith)
                requires
                    size * size <= usize::MAX,
                    usize::MAX >= 0xffff,
                    size >= 0,
            ;
            lemma_verdict_none(solutions_below(rule, start, position, 1));
        }
        while number <= size
            invariant
                scratch.wf(),
                scratch@ == start,
                start == old(scratch)@,
                rule == rule_of(*constraint),
                size == start.size,
                size < usize::MAX,
                column < size,
                row < size,
                next_column < size,
                next_row <= size,
                next_row == size ==> next_column == 0,
                position == start.position(column as int, row as int),
                start.position(next_column as int, next_row as int) == position + 1,
                0 <= position < start.cells.len(),
                start.column_of(position) == column,
                start.row_of(position) == row,
                start.cells[position] is None,
                1 <= number <= size + 1,
                solution@ == verdict_of(solutions_below(rule, start, position, number as int)),
            decreases size + 1 - number,
        {
            let ghost before = solutions_below(rule, start, position, number as int);
            let ghost after = solutions_below(rule, start, position, number + 1);
            if constraint.check_number(scratch, column, row, number) {
                scratch.set_cell(column, row, number).unwrap();
                let ghost entered = scratch@;
                let deeper = Self::solve_rec(constraint, scratch, next_column, next_row);
                scratch.clear_cell(column, row).unwrap();
                proof {
                    assert(scratch@.cells =~= start.cells);
                    let here = solutions_from(rule, entered, position + 1);
                    assert forall|g: GridView| #[trigger] after(g) <==> (before(g) || here(g)) by {
                        lemma_step_blank(rule, start, position, number, g);
                    }
                    assert forall|g: GridView| !(#[trigger] before(g) && here(g)) by {
                        if here(g) {
                            assert(g.cells[position] == entered.cells[position]);
                        }
                    }
                    lemma_verdict_union(before, here, after);
                }
                solution = combine(solution, deeper);
            } else {
                proof {
                    assert forall|g: GridView| #[trigger] after(g) <==> #[trigger] before(g) by {
                        lemma_step_blank(rule, start, position, number, g);
                    }
                    lemma_verdict_same(after, before);
                }
            }
            match solution {
                Solution::Ambiguous => {
                    proof {
                        lemma_verdict_grows(after, solutions_from(rule, start, position));
                    }
                    return Solution::Ambiguous;
                },
                _ => {},
            }
            number += 1;
        }
        proof {
            let all = solutions_from(rule, start, position);
            let below = solutions_below(rule, start, position, number as int);
            assert forall|g: GridView| #[trigger] all(g) <==> #[trigger] below(g) by {
                if all(g) {
                    assert(settled(rule, start, g, position));
                }
            }
            lemma_verdict_same(all, below);
        }
        solution
    }
}

impl Solver for BacktrackingSolver {
    open spec fn verdict(&self, rule: Rule, grid: GridView) -> Verdict {
        search_verdict(rule, grid)
    }

    fn solve<C: Constraint + Clone>(&self, sudoku: &Sudoku<C>) -> (solution: Solution) {
        let mut scratch = sudoku.grid.clone();
        proof {
            assert(scratch@.size > 0) by (nonlinear_arith)
                requires
                    scratch@.size == scratch@.block_width * scratch@.block_height,
                    scratch@.block_width > 0,
                    scratch@.block_height > 0,
            ;
            assert(scratch@.position(0, 0) == 0) by (nonlinear_arith)
                requires
                    scratch@.position(0, 0) == 0 * scratch@.size + 0,
            ;
        }
        Self::solve_rec(&sudoku.constraint, &mut scratch, 0, 0)
    }
}

/// Where the verdict is unique, the grid it names is the only member.
pub proof fn lemma_verdict_names_member(fits: spec_fn(GridView) -> bool, found: GridView)
    requires
        verdict_of(fits) == Verdict::Unique(found),
    ensures
        fits(found),
        forall|g: GridView| #[trigger] fits(g) ==> g == found,
{
    let chosen = choose|g: GridView| #[trigger] fits(g);
    assert(fits(chosen));
    assert forall|g: GridView| #[trigger] fits(g) implies g == found by {
        if g != found {
            assert(fits(g) && fits(chosen) && g != chosen);
        }
    }
}

/// `full` with the cell at `position` emptied, and with it the cells between
/// `position` and `upto` that are empty in `grid`.
pub open spec fn thinned(grid: GridView, full: GridView, position: int, upto: int) -> GridView {
    GridView {
        cells: Seq::new(
            full.cells.len(),
            |q: int|
                if q == position || (position < q < upto && grid.cells[q] is None) {
                    None
                } else {
                    full.cells[q]
                },
        ),
        ..full
    }
}

/// Under a rule that relaxes on removal, a digit that is accepted with the
/// rest of a full grid in place is still accepted when later cells are
/// emptied.
pub proof fn lemma_thinned_accepts(
    rule: Rule,
    grid: GridView,
    full: GridView,
    position: int,
    upto: int,
    number: usize,
)
    requires
        relaxes_on_removal(rule),
        full.wf(),
        grid.cells.len() == full.cells.len(),
        0 <= position < upto <= full.cells.len(),
        rule(
            full.with_content(position, None),
            full.column_of(position),
            full.row_of(position),
            number,
        ),
    ensures
        rule(
            thinned(grid, full, position, upto),
            full.column_of(position),
            full.row_of(position),
            number,
        ),
    decreases upto,
{
    if upto == position + 1 {
        assert(thinned(grid, full, position, upto).cells =~= full.with_content(
            position,
            None,
        ).cells);
    } else {
        lemma_thinned_accepts(rule, grid, full, position, upto - 1, number);
        let before = thinned(grid, full, position, upto - 1);
        let after = thinned(grid, full, position, upto);
        assert(before.wf()) by {
            assert forall|q: int| 0 <= q < before.cells.len() implies match #[trigger] before.cells[q] {
                Some(d) => 1 <= d <= before.size,
                None => true,
            } by {
                assert(before.cells[q] is Some ==> before.cells[q] == full.cells[q]);
            }
        }
        if grid.cells[upto - 1] is None {
            assert(after.cells =~= before.with_content(upto - 1, None).cells);
            assert(after == before.with_content(upto - 1, None));
        } else {
            assert(after.cells =~= before.cells);
        }
    }
}

/// Under a rule that relaxes on removal, every full and valid grid that
/// contains a grid is one of the solutions that the search finds for it.
pub proof fn lemma_valid_solves(rule: Rule, grid: GridView, full: GridView)
    requires
        relaxes_on_removal(rule),
        grid.wf(),
        full.wf(),
        full.is_full(),
        valid(rule, full),
        grid.within(full),
    ensures
        solves(rule, grid, full),
{
    assert forall|p: int| 0 <= p < grid.cells.len() implies #[trigger] settled(
        rule,
        grid,
        full,
        p,
    ) by {
        assert(grid.cells[p] is None || grid.cells[p] == full.cells[p]);
        if grid.cells[p] is None {
            assert(full.cells[p] is Some);
            let number = full.cells[p]->Some_0;
            assert(cell_valid(rule, full, p));
            lemma_thinned_accepts(rule, grid, full, p, full.cells.len() as int, number);
            let thin = thinned(grid, full, p, full.cells.len() as int);
            assert(thin.cells =~= overlay(grid, full, p).cells) by {
                assert forall|q: int| 0 <= q < thin.cells.len() implies thin.cells[q] == overlay(
                    grid,
                    full,
                    p,
                ).cells[q] by {
                    assert(grid.cells[q] is None || grid.cells[q] == full.cells[q]);
                }
            }
            assert(thin == overlay(grid, full, p));
        }
    }
}

/// Under a rule that keeps validity, filling the empty cells of a valid grid
/// as a solution does, up to any position, gives a valid grid.
pub proof fn lemma_overlay_valid(rule: Rule, grid: GridView, full: GridView, upto: int)
    requires
        keeps_validity(rule),
        grid.wf(),
        valid(rule, grid),
        solves(rule, grid, full),
        0 <= upto <= grid.cells.len(),
    ensures
        valid(rule, overlay(grid, full, upto)),
        overlay(grid, full, upto).wf(),
    decreases upto,
{
    let here = overlay(grid, full, upto);
    assert(here.wf()) by {
        assert forall|q: int| 0 <= q < here.cells.len() implies match #[trigger] here.cells[q] {
            Some(d) => 1 <= d <= here.size,
            None => true,
        } by {
            assert(here.cells[q] == full.cells[q] || here.cells[q] == grid.cells[q]);
        }
    }
    if upto == 0 {
        assert(here.cells =~= grid.cells);
    } else {
        let position = upto - 1;
        lemma_overlay_valid(rule, grid, full, position);
        let before = overlay(grid, full, position);
        assert(settled(rule, grid, full, position));
        if grid.cells[position] is Some {
            assert(here.cells =~= before.cells);
        } else {
            let number = full.cells[position]->Some_0;
            let column = grid.column_of(position);
            let row = grid.row_of(position);
            lemma_coordinates(grid.size as int, position);
            assert(before.position(column, row) == position);
            assert(before.put(column, row, number).cells =~= here.cells);
            assert(before.put(column, row, number) == here);
        }
    }
}

/// Under a rule that keeps validity, every solution that the search finds
/// for a valid grid is full and valid and contains the grid.
pub proof fn lemma_solution_valid(rule: Rule, grid: GridView, full: GridView)
    requires
        keeps_validity(rule),
        grid.wf(),
        valid(rule, grid),
        solves(rule, grid, full),
    ensures
        full.is_full(),
        valid(rule, full),
        grid.within(full),
{
    lemma_overlay_valid(rule, grid, full, grid.cells.len() as int);
    assert(overlay(grid, full, grid.cells.len() as int).cells =~= full.cells);
    assert forall|p: int| 0 <= p < full.cells.len() implies #[trigger] full.cells[p] is Some by {
        assert(settled(rule, grid, full, p));
    }
    assert forall|p: int| 0 <= p < grid.cells.len() implies #[trigger] grid.cells[p] is None
        || grid.cells[p] == full.cells[p] by {
        assert(settled(rule, grid, full, p));
    }
}

} // verus!
