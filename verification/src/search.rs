use vstd::prelude::*;
use crate::constraint::{cell_valid, keeps_validity, relaxes_on_removal, valid, Rule};
use crate::solver::{
    lemma_solution_valid, lemma_valid_solves, overlay, search_verdict, settled, solutions_from, solves, Verdict,
};
use crate::grid::{empty_grid, GridView};

verus! {

/// The grid with every position from `from` on emptied.
pub open spec fn prefix(grid: GridView, from: int) -> GridView {
    GridView {
        cells: Seq::new(
            grid.cells.len(),
            |p: int|
                if p < from {
                    grid.cells[p]
                } else {
                    None
                },
        ),
        ..grid
    }
}

/// The cell at `position` holds a digit in `1..=size` which the rule accepted
/// when only the cells before it, in row-major order, were filled.
pub open spec fn entered(rule: Rule, grid: GridView, position: int) -> bool {
    match grid.cells[position] {
        Some(number) => 1 <= number <= grid.size && rule(
            prefix(grid, position),
            grid.column_of(position),
            grid.row_of(position),
            number,
        ),
        None => false,
    }
}

/// Every cell from position `from` on was filled in row-major order, each
/// digit accepted by the rule as it was entered.
pub open spec fn filled_in_order(rule: Rule, grid: GridView, from: int) -> bool {
    forall|p: int| from <= p < grid.cells.len() ==> #[trigger] entered(rule, grid, p)
}

/// `full` fills, in row-major order and to the rule's liking, the cells of
/// `grid` from position `from` on, and agrees with `grid` before that.
pub open spec fn completes(rule: Rule, grid: GridView, from: int, full: GridView) -> bool {
    full.wf() && prefix(full, from) == grid && filled_in_order(rule, full, from)
}

/// Some way exists to fill the cells of `grid` from position `from` on.
pub open spec fn completable(rule: Rule, grid: GridView, from: int) -> bool {
    exists|full: GridView| #[trigger] completes(rule, grid, from, full)
}

/// A full grid of the given block dimensions can be reached from the empty
/// one by entering digits in row-major order.
pub open spec fn satisfiable(rule: Rule, block_width: nat, block_height: nat) -> bool {
    completable(rule, empty_grid(block_width, block_height), 0)
}

/// A grid whose cells were all entered in order holds a digit everywhere.
pub proof fn lemma_filled_in_order_full(rule: Rule, grid: GridView)
    requires
        filled_in_order(rule, grid, 0),
    ensures
        grid.is_full(),
{
    assert forall|p: int| 0 <= p < grid.cells.len() implies #[trigger] grid.cells[p] is Some by {
        assert(entered(rule, grid, p));
    }
}

/// Under a rule that keeps validity, a grid whose cells were all entered in
/// order is full and valid.
pub proof fn lemma_filled_in_order_valid(rule: Rule, grid: GridView)
    requires
        grid.wf(),
        filled_in_order(rule, grid, 0),
        keeps_validity(rule),
    ensures
        grid.is_full(),
        valid(rule, grid),
{
    let empty = empty_grid(grid.block_width, grid.block_height);
    lemma_solves_empty(rule, grid);
    assert(valid(rule, empty)) by {
        assert forall|p: int| 0 <= p < empty.cells.len() implies #[trigger] cell_valid(
            rule,
            empty,
            p,
        ) by {}
    }
    lemma_solution_valid(rule, empty, grid);
}

/// The grids whose cells were all entered in order are the solutions that an
/// exhaustive search finds for the empty grid.
pub proof fn lemma_solves_empty(rule: Rule, full: GridView)
    requires
        full.wf(),
    ensures
        solves(rule, empty_grid(full.block_width, full.block_height), full) <==> filled_in_order(
            rule,
            full,
            0,
        ),
{
    let empty = empty_grid(full.block_width, full.block_height);
    assert(empty.size == full.size);
    assert(empty.cells.len() == full.cells.len());
    assert forall|p: int| 0 <= p < full.cells.len() implies (#[trigger] settled(
        rule,
        empty,
        full,
        p,
    ) <==> #[trigger] entered(rule, full, p)) by {
        assert(overlay(empty, full, p).cells =~= prefix(full, p).cells);
        assert(overlay(empty, full, p) == prefix(full, p));
    }
    if solves(rule, empty, full) {
        assert forall|p: int| 0 <= p < full.cells.len() implies #[trigger] entered(rule, full, p) by {
            assert(settled(rule, empty, full, p));
        }
    }
    if filled_in_order(rule, full, 0) {
        assert forall|p: int| 0 <= p < empty.cells.len() implies #[trigger] settled(
            rule,
            empty,
            full,
            p,
        ) by {
            assert(entered(rule, full, p));
        }
    }
}

/// Under a rule that relaxes on removal, block dimensions for which a full
/// and valid grid exists are satisfiable.
pub proof fn lemma_valid_grid_satisfiable(rule: Rule, full: GridView)
    requires
        relaxes_on_removal(rule),
        full.wf(),
        full.is_full(),
        valid(rule, full),
    ensures
        satisfiable(rule, full.block_width, full.block_height),
{
    let empty = empty_grid(full.block_width, full.block_height);
    lemma_valid_solves(rule, empty, full);
    lemma_solves_empty(rule, full);
    assert(prefix(full, 0).cells =~= empty.cells);
    assert(completes(rule, empty, 0, full));
}

/// Block dimensions are satisfiable exactly when an exhaustive search does
/// not call the empty grid impossible.
pub proof fn lemma_satisfiable_iff_solvable(rule: Rule, block_width: nat, block_height: nat)
    requires
        block_width > 0,
        block_height > 0,
    ensures
        satisfiable(rule, block_width, block_height) <==> search_verdict(
            rule,
            empty_grid(block_width, block_height),
        ) != Verdict::Impossible,
{
    let empty = empty_grid(block_width, block_height);
    let fits = solutions_from(rule, empty, 0);
    if satisfiable(rule, block_width, block_height) {
        let full = choose|full: GridView| #[trigger] completes(rule, empty, 0, full);
        lemma_solves_empty(rule, full);
        assert(fits(full));
    }
    if search_verdict(rule, empty) != Verdict::Impossible {
        let full = choose|full: GridView| #[trigger] fits(full);
        assert(fits(full));
        lemma_solves_empty(rule, full);
        assert(prefix(full, 0).cells =~= empty.cells);
        assert(completes(rule, empty, 0, full));
    }
}

} // verus!
