use vstd::prelude::*;
use crate::constraint::{cell_valid, relaxes_on_removal, valid, Rule};
use crate::grid::{lemma_count_update, GridView};
use crate::solver::{
    lemma_valid_solves, lemma_verdict_names_member, solutions_from, BacktrackingSolver, Solver,
    Verdict,
};

verus! {

/// The given cell holds a digit, and without it the solver still finds the
/// grid uniquely solvable.
pub open spec fn removable<S: Solver>(
    solver: S,
    rule: Rule,
    grid: GridView,
    column: int,
    row: int,
) -> bool {
    grid.contains(column, row) && grid.cell(column, row) is Some && solver.verdict(
        rule,
        grid.without(column, row),
    ) is Unique
}

/// The grid after one trial: the cell is emptied if it is removable, and
/// nothing changes if it is not.
pub open spec fn reduce_step<S: Solver>(
    solver: S,
    rule: Rule,
    grid: GridView,
    coordinate: (usize, usize),
) -> GridView {
    if removable(solver, rule, grid, coordinate.0 as int, coordinate.1 as int) {
        grid.without(coordinate.0 as int, coordinate.1 as int)
    } else {
        grid
    }
}

/// The grid after one greedy pass that tries the cells in the given order of
/// `(column, row)` pairs.
pub open spec fn reduced_along<S: Solver>(
    solver: S,
    rule: Rule,
    grid: GridView,
    order: Seq<(usize, usize)>,
) -> GridView
    decreases order.len(),
{
    if order.len() == 0 {
        grid
    } else {
        reduce_step(solver, rule, reduced_along(solver, rule, grid, order.drop_last()), order.last())
    }
}

/// All cells of a grid as `(column, row)` pairs, column by column.
pub open spec fn coordinates(size: nat) -> Seq<(usize, usize)> {
    Seq::new(size * size, |p: int| ((p / (size as int)) as usize, (p % (size as int)) as usize))
}

/// Whenever the solver calls a grid uniquely solvable, no full and valid grid
/// contains that grid but the one it names.
pub open spec fn sound_for<S: Solver>(solver: S, rule: Rule) -> bool {
    forall|grid: GridView, other: GridView|
        grid.wf() && other.wf() && other.is_full() && valid(rule, other) && #[trigger] grid.within(
            other,
        ) ==> match solver.verdict(rule, grid) {
            Verdict::Unique(found) => found == other,
            _ => true,
        }
}

/// One trial keeps the grid well formed and only ever empties a cell.
pub proof fn lemma_step_within<S: Solver>(
    solver: S,
    rule: Rule,
    grid: GridView,
    coordinate: (usize, usize),
)
    requires
        grid.wf(),
    ensures
        reduce_step(solver, rule, grid, coordinate).wf(),
        reduce_step(solver, rule, grid, coordinate).within(grid),
        if removable(solver, rule, grid, coordinate.0 as int, coordinate.1 as int) {
            reduce_step(solver, rule, grid, coordinate).clue_count() + 1 == grid.clue_count()
        } else {
            reduce_step(solver, rule, grid, coordinate) == grid
        },
{
    let column = coordinate.0 as int;
    let row = coordinate.1 as int;
    if removable(solver, rule, grid, column, row) {
        crate::grid::lemma_position(grid.size as int, column, row);
        lemma_count_update(grid.cells, grid.position(column, row), None);
    }
}

/// A pass leaves a well-formed grid in which every digit stands where it
/// stood before: it fills no cell and changes no digit.
pub proof fn lemma_reduced_within<S: Solver>(
    solver: S,
    rule: Rule,
    grid: GridView,
    order: Seq<(usize, usize)>,
)
    requires
        grid.wf(),
    ensures
        reduced_along(solver, rule, grid, order).wf(),
        reduced_along(solver, rule, grid, order).within(grid),
    decreases order.len(),
{
    if order.len() > 0 {
        lemma_reduced_within(solver, rule, grid, order.drop_last());
        let earlier = reduced_along(solver, rule, grid, order.drop_last());
        lemma_step_within(solver, rule, earlier, order.last());
        let result = reduced_along(solver, rule, grid, order);
        assert forall|p: int| 0 <= p < result.cells.len() implies #[trigger] result.cells[p] is None
            || result.cells[p] == grid.cells[p] by {
            assert(result.cells[p] is None || result.cells[p] == earlier.cells[p]);
            assert(earlier.cells[p] is None || earlier.cells[p] == grid.cells[p]);
        }
    }
}

/// A pass never adds a clue, and it removes one exactly when it changes the
/// grid.
pub proof fn lemma_reduced_count<S: Solver>(
    solver: S,
    rule: Rule,
    grid: GridView,
    order: Seq<(usize, usize)>,
)
    requires
        grid.wf(),
    ensures
        reduced_along(solver, rule, grid, order).clue_count() <= grid.clue_count(),
        reduced_along(solver, rule, grid, order) != grid <==> reduced_along(
            solver,
            rule,
            grid,
            order,
        ).clue_count() < grid.clue_count(),
    decreases order.len(),
{
    if order.len() > 0 {
        lemma_reduced_count(solver, rule, grid, order.drop_last());
        lemma_reduced_within(solver, rule, grid, order.drop_last());
        lemma_step_within(
            solver,
            rule,
            reduced_along(solver, rule, grid, order.drop_last()),
            order.last(),
        );
    }
}

/// Uniqueness is never lost: a pass that changed the grid leaves one that
/// the solver calls uniquely solvable.
pub proof fn lemma_reduced_unique<S: Solver>(
    solver: S,
    rule: Rule,
    grid: GridView,
    order: Seq<(usize, usize)>,
)
    ensures
        reduced_along(solver, rule, grid, order) != grid ==> solver.verdict(
            rule,
            reduced_along(solver, rule, grid, order),
        ) is Unique,
    decreases order.len(),
{
    if order.len() > 0 {
        lemma_reduced_unique(solver, rule, grid, order.drop_last());
    }
}

/// A pass that changed the grid found a cell that was removable from the
/// grid as it was given.
pub proof fn lemma_reduced_found_removable<S: Solver>(
    solver: S,
    rule: Rule,
    grid: GridView,
    order: Seq<(usize, usize)>,
)
    requires
        reduced_along(solver, rule, grid, order) != grid,
    ensures
        exists|column: int, row: int| removable(solver, rule, grid, column, row),
    decreases order.len(),
{
    if order.len() > 0 {
        let earlier = reduced_along(solver, rule, grid, order.drop_last());
        if earlier != grid {
            lemma_reduced_found_removable(solver, rule, grid, order.drop_last());
        } else {
            assert(removable(solver, rule, grid, order.last().0 as int, order.last().1 as int));
        }
    }
}

/// A pass that tries a cell which is removable from the grid as it was given
/// removes at least one clue.
pub proof fn lemma_reduced_takes_removable<S: Solver>(
    solver: S,
    rule: Rule,
    grid: GridView,
    order: Seq<(usize, usize)>,
    coordinate: (usize, usize),
)
    requires
        grid.wf(),
        order.contains(coordinate),
        removable(solver, rule, grid, coordinate.0 as int, coordinate.1 as int),
    ensures
        reduced_along(solver, rule, grid, order).clue_count() < grid.clue_count(),
    decreases order.len(),
{
    let earlier = reduced_along(solver, rule, grid, order.drop_last());
    lemma_reduced_count(solver, rule, grid, order.drop_last());
    lemma_reduced_within(solver, rule, grid, order.drop_last());
    lemma_step_within(solver, rule, earlier, order.last());
    if order.last() != coordinate {
        let k = choose|k: int| 0 <= k < order.len() && order[k] == coordinate;
        assert(order.drop_last()[k] == coordinate);
        lemma_reduced_takes_removable(solver, rule, grid, order.drop_last(), coordinate);
    }
}

/// Under a rule that relaxes on removal, emptying a cell of a valid grid
/// leaves a valid grid.
pub proof fn lemma_removal_keeps_valid(rule: Rule, grid: GridView, position: int)
    requires
        grid.wf(),
        valid(rule, grid),
        relaxes_on_removal(rule),
        0 <= position < grid.cells.len(),
    ensures
        valid(rule, grid.with_content(position, None)),
{
    let emptied = grid.with_content(position, None);
    assert forall|p: int| 0 <= p < emptied.cells.len() implies #[trigger] cell_valid(
        rule,
        emptied,
        p,
    ) by {
        if p != position && emptied.cells[p] is Some {
            assert(cell_valid(rule, grid, p));
            let rest = grid.with_content(p, None);
            assert(rest.wf());
            assert(rest.with_content(position, None).cells =~= emptied.with_content(p, None).cells);
            assert(rest.with_content(position, None) == emptied.with_content(p, None));
        }
    }
}

/// Under a rule that relaxes on removal, a pass over a valid grid leaves a
/// valid grid.
pub proof fn lemma_reduced_valid<S: Solver>(
    solver: S,
    rule: Rule,
    grid: GridView,
    order: Seq<(usize, usize)>,
)
    requires
        grid.wf(),
        valid(rule, grid),
        relaxes_on_removal(rule),
    ensures
        valid(rule, reduced_along(solver, rule, grid, order)),
    decreases order.len(),
{
    if order.len() > 0 {
        let earlier = reduced_along(solver, rule, grid, order.drop_last());
        lemma_reduced_valid(solver, rule, grid, order.drop_last());
        lemma_reduced_within(solver, rule, grid, order.drop_last());
        let column = order.last().0 as int;
        let row = order.last().1 as int;
        if removable(solver, rule, earlier, column, row) {
            crate::grid::lemma_position(earlier.size as int, column, row);
            lemma_removal_keeps_valid(rule, earlier, earlier.position(column, row));
        }
    }
}

/// What a sound solver names as the one solution of a grid reduced from a
/// full and valid grid is that grid.
pub proof fn lemma_solution_is_start<S: Solver>(
    solver: S,
    rule: Rule,
    start: GridView,
    order: Seq<(usize, usize)>,
    found: GridView,
)
    requires
        start.wf(),
        start.is_full(),
        valid(rule, start),
        sound_for(solver, rule),
        solver.verdict(rule, reduced_along(solver, rule, start, order)) == Verdict::Unique(
            found,
        ),
    ensures
        found == start,
{
    lemma_reduced_within(solver, rule, start, order);
    let reduced = reduced_along(solver, rule, start, order);
    assert(reduced.within(start));
}

/// Every cell of a grid occurs among its coordinates.
pub proof fn lemma_coordinates_cover(size: nat, column: usize, row: usize)
    requires
        column < size,
        row < size,
        size <= usize::MAX,
    ensures
        coordinates(size).contains((column, row)),
{
    crate::grid::lemma_position(size as int, row as int, column as int);
    let p = column * size + row;
    assert(coordinates(size)[p] == (column, row));
}

/// If the solver finds the grid uniquely solvable as it is given, it finds
/// it uniquely solvable after a pass.
pub proof fn lemma_reduced_stays_unique<S: Solver>(
    solver: S,
    rule: Rule,
    grid: GridView,
    order: Seq<(usize, usize)>,
)
    requires
        solver.verdict(rule, grid) is Unique,
    ensures
        solver.verdict(rule, reduced_along(solver, rule, grid, order)) is Unique,
{
    lemma_reduced_unique(solver, rule, grid, order);
}

/// Under a rule that relaxes on removal, the exhaustive search is sound.
pub proof fn lemma_search_sound(rule: Rule)
    requires
        relaxes_on_removal(rule),
    ensures
        sound_for(BacktrackingSolver, rule),
{
    assert forall|grid: GridView, other: GridView|
        grid.wf() && other.wf() && other.is_full() && valid(rule, other) && #[trigger] grid.within(
            other,
        ) implies match BacktrackingSolver.verdict(rule, grid) {
        Verdict::Unique(found) => found == other,
        _ => true,
    } by {
        lemma_valid_solves(rule, grid, other);
        let fits = solutions_from(rule, grid, 0);
        assert(fits(other));
        match BacktrackingSolver.verdict(rule, grid) {
            Verdict::Unique(found) => {
                lemma_verdict_names_member(fits, found);
            },
            _ => {},
        }
    }
}

/// A pass over a grid that tries a removable cell leaves at least one cell
/// empty.
pub proof fn lemma_reduced_not_full<S: Solver>(
    solver: S,
    rule: Rule,
    grid: GridView,
    order: Seq<(usize, usize)>,
    coordinate: (usize, usize),
)
    requires
        grid.wf(),
        order.contains(coordinate),
        removable(solver, rule, grid, coordinate.0 as int, coordinate.1 as int),
    ensures
        reduced_along(solver, rule, grid, order).clue_count() <= grid.size * grid.size - 1,
{
    lemma_reduced_takes_removable(solver, rule, grid, order, coordinate);
    crate::grid::lemma_count_bound(grid.cells);
}

} // verus!
