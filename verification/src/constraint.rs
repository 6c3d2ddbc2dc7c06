use vstd::prelude::*;
use crate::grid::{lemma_coordinates, lemma_position, GridView, SudokuGrid};

verus! {

/// What a rule set says of placing a number into a cell of a grid: the
/// arguments are the grid, the column, the row and the number.
pub type Rule = spec_fn(GridView, int, int, usize) -> bool;

/// A rule set for the digits of a grid.
pub trait Constraint {
    /// Whether the rule set lets `number` stand in the given cell of `grid`.
    /// The answer depends on nothing else; a constraint says here what it is.
    closed spec fn accepts(&self, grid: GridView, column: int, row: int, number: usize) -> bool {
        arbitrary()
    }

    /// Decides `accepts` for a cell of the grid and a number in `1..=size`.
    fn check_number(&self, grid: &SudokuGrid, column: usize, row: usize, number: usize) -> (ok:
        bool)
        requires
            grid.wf(),
            grid@.contains(column as int, row as int),
            1 <= number <= grid@.size,
        ensures
            ok == self.accepts(grid@, column as int, row as int, number),
    ;
}

/// The rule that a constraint stands for.
pub open spec fn rule_of<C: Constraint>(constraint: C) -> Rule {
    |grid: GridView, column: int, row: int, number: usize|
        constraint.accepts(grid, column, row, number)
}

/// The cell at `position` is empty, or the rule accepts its digit given the
/// rest of the grid.
pub open spec fn cell_valid(rule: Rule, grid: GridView, position: int) -> bool {
    match grid.cells[position] {
        Some(number) => rule(
            grid.with_content(position, None),
            grid.column_of(position),
            grid.row_of(position),
            number,
        ),
        None => true,
    }
}

/// Every digit of the grid is accepted by the rule given the rest of the grid.
pub open spec fn valid(rule: Rule, grid: GridView) -> bool {
    forall|p: int| 0 <= p < grid.cells.len() ==> #[trigger] cell_valid(rule, grid, p)
}

/// Entering an accepted digit into an empty cell of a valid grid leaves the
/// grid valid.
pub open spec fn keeps_validity(rule: Rule) -> bool {
    forall|grid: GridView, column: int, row: int, number: usize|
        grid.wf() && grid.contains(column, row) && 1 <= number <= grid.size && grid.cell(
            column,
            row,
        ) is None && valid(rule, grid) && rule(grid, column, row, number) ==> #[trigger] valid(
            rule,
            grid.put(column, row, number),
        )
}

/// Emptying a cell never turns a digit that was accepted elsewhere into one
/// that is refused.
pub open spec fn relaxes_on_removal(rule: Rule) -> bool {
    forall|grid: GridView, column: int, row: int, number: usize, position: int|
        grid.wf() && 0 <= position < grid.cells.len() && #[trigger] rule(
            grid,
            column,
            row,
            number,
        ) ==> rule(#[trigger] grid.with_content(position, None), column, row, number)
}

/// The two cells lie in the same block.
pub open spec fn same_block(grid: GridView, c1: int, r1: int, c2: int, r2: int) -> bool {
    c1 / (grid.block_width as int) == c2 / (grid.block_width as int) && r1 / (
    grid.block_height as int) == r2 / (grid.block_height as int)
}

/// The two cells differ and share a row, a column or a block.
pub open spec fn sees(grid: GridView, c1: int, r1: int, c2: int, r2: int) -> bool {
    (c1 != c2 || r1 != r2) && (c1 == c2 || r1 == r2 || same_block(grid, c1, r1, c2, r2))
}

/// No cell that shares a row, a column or a block with the given one holds
/// `number`.
pub open spec fn unseen(grid: GridView, column: int, row: int, number: usize) -> bool {
    forall|c: int, r: int|
        grid.contains(c, r) && sees(grid, column, row, c, r) ==> #[trigger] grid.cell(c, r)
            != Some(number)
}

/// The classic rule set: no digit twice in a row, a column or a block.
#[derive(Clone, Copy, Debug)]
pub struct DefaultConstraint;

/// A coordinate shares the block index of `x` exactly when it lies in the
/// `width` coordinates that start at the block's first.
pub proof fn lemma_block_span(width: int, x: int, c: int)
    requires
        width > 0,
        0 <= x,
        0 <= c,
    ensures
        (c / width == x / width) <==> ((x / width) * width <= c < (x / width) * width + width),
        0 <= (x / width) * width <= x < (x / width) * width + width,
{
    vstd::arithmetic::div_mod::lemma_fundamental_div_mod(x, width);
    vstd::arithmetic::div_mod::lemma_fundamental_div_mod(c, width);
    let q = x / width;
    assert(width * q == q * width) by (nonlinear_arith);
    assert(width * (c / width) == (c / width) * width) by (nonlinear_arith);
    assert(0 <= q * width) by (nonlinear_arith)
        requires
            q * width + x % width == x,
            0 <= x % width < width,
            width > 0,
            0 <= x,
    ;
    if q * width <= c < q * width + width {
        vstd::arithmetic::div_mod::lemma_fundamental_div_mod_converse_div(
            c,
            width,
            q,
            c - q * width,
        );
    }
}

/// The blocks tile the grid: a block that starts at a block boundary ends
/// inside the grid.
pub proof fn lemma_block_inside(width: int, height: int, x: int)
    requires
        width > 0,
        height > 0,
        0 <= x < width * height,
    ensures
        (x / width) * width + width <= width * height,
{
    lemma_block_span(width, x, x);
    let q = x / width;
    assert(q < height) by (nonlinear_arith)
        requires
            0 <= q * width <= x,
            x < width * height,
            width > 0,
    ;
    assert(q * width + width <= width * height) by (nonlinear_arith)
        requires
            q < height,
            width > 0,
    ;
}

fn holds(grid: &SudokuGrid, column: usize, row: usize, number: usize) -> (found: bool)
    requires
        grid.wf(),
        grid@.contains(column as int, row as int),
    ensures
        found == (grid@.cell(column as int, row as int) == Some(number)),
{
    match grid.get_cell(column, row) {
        Ok(Some(content)) => content == number,
        _ => false,
    }
}

impl DefaultConstraint {
    fn row_free(grid: &SudokuGrid, column: usize, row: usize, number: usize) -> (free: bool)
        requires
            grid.wf(),
            grid@.contains(column as int, row as int),
        ensures
            free == (forall|c: int|
                0 <= c < grid@.size && c != column ==> #[trigger] grid@.cell(c, row as int)
                    != Some(number)),
    {
        let size: usize = grid.size();
        let mut c: usize = 0;
        while c < size
            invariant
                grid.wf(),
                size == grid@.size,
                row < size,
                c <= size,
                forall|k: int|
                    0 <= k < c && k != column ==> #[trigger] grid@.cell(k, row as int) != Some(
                        number,
                    ),
            decreases size - c,
        {
            if c != column && holds(grid, c, row, number) {
                return false;
            }
            c += 1;
        }
        true
    }

    fn column_free(grid: &SudokuGrid, column: usize, row: usize, number: usize) -> (free: bool)
        requires
            grid.wf(),
            grid@.contains(column as int, row as int),
        ensures
            free == (forall|r: int|
                0 <= r < grid@.size && r != row ==> #[trigger] grid@.cell(column as int, r)
                    != Some(number)),
    {
        let size: usize = grid.size();
        let mut r: usize = 0;
        while r < size
            invariant
                grid.wf(),
                size == grid@.size,
                column < size,
                r <= size,
                forall|k: int|
                    0 <= k < r && k != row ==> #[trigger] grid@.cell(column as int, k) != Some(
                        number,
                    ),
            decreases size - r,
        {
            if r != row && holds(grid, column, r, number) {
                return false;
            }
            r += 1;
        }
        true
    }

    fn block_free(grid: &SudokuGrid, column: usize, row: usize, number: usize) -> (free: bool)
        requires
            grid.wf(),
            grid@.contains(column as int, row as int),
        ensures
            free == (forall|c: int, r: int|
                grid@.contains(c, r) && same_block(grid@, column as int, row as int, c, r) && (c
                    != column || r != row) ==> #[trigger] grid@.cell(c, r) != Some(number)),
    {
        let width: usize = grid.block_width();
        let height: usize = grid.block_height();
        let size: usize = grid.size();
        proof {
            lemma_block_span(width as int, column as int, column as int);
            lemma_block_span(height as int, row as int, row as int);
            lemma_block_inside(width as int, height as int, column as int);
            lemma_block_inside(height as int, width as int, row as int);
            assert(width * height == height * width) by (nonlinear_arith);
        }
        let left: usize = (column / width) * width;
        let top: usize = (row / height) * height;
        let mut r: usize = top;
        while r < top + height
            invariant
                grid.wf(),
                size == grid@.size,
                width == grid@.block_width,
                height == grid@.block_height,
                column < size,
                row < size,
                left == (column / width) * width,
                top == (row / height) * height,
                left + width <= size,
                top + height <= size,
                top <= r <= top + height,
                forall|c: int, k: int|
                    left <= c < left + width && top <= k < r && (c != column || k != row)
                        ==> #[trigger] grid@.cell(c, k) != Some(number),
            decreases top + height - r,
        {
            let mut c: usize = left;
            while c < left + width
                invariant
                    grid.wf(),
                    size == grid@.size,
                    column < size,
                    row < size,
                    left + width <= size,
                    top + height <= size,
                    width == grid@.block_width,
                    height == grid@.block_height,
                    left == (column / width) * width,
                    top == (row / height) * height,
                    top <= r < top + height,
                    left <= c <= left + width,
                    forall|x: int, k: int|
                        left <= x < left + width && top <= k < r && (x != column || k != row)
                            ==> #[trigger] grid@.cell(x, k) != Some(number),
                    forall|x: int|
                        left <= x < c && (x != column || r != row) ==> #[trigger] grid@.cell(
                            x,
                            r as int,
                        ) != Some(number),
                decreases left + width - c,
            {
                if (c != column || r != row) && holds(grid, c, r, number) {
                    proof {
                        lemma_block_span(width as int, column as int, c as int);
                        lemma_block_span(height as int, row as int, r as int);
                        assert(grid@.contains(c as int, r as int) && same_block(
                            grid@,
                            column as int,
                            row as int,
                            c as int,
                            r as int,
                        ) && grid@.cell(c as int, r as int) == Some(number));
                    }
                    return false;
                }
                c += 1;
            }
            r += 1;
        }
        proof {
            assert forall|c: int, k: int|
                grid@.contains(c, k) && same_block(grid@, column as int, row as int, c, k) && (c
                    != column || k != row) implies #[trigger] grid@.cell(c, k) != Some(
                number,
            ) by {
                lemma_block_span(width as int, column as int, c);
                lemma_block_span(height as int, row as int, k);
            }
        }
        true
    }
}

impl Constraint for DefaultConstraint {
    open spec fn accepts(&self, grid: GridView, column: int, row: int, number: usize) -> bool {
        unseen(grid, column, row, number)
    }

    fn check_number(&self, grid: &SudokuGrid, column: usize, row: usize, number: usize) -> (ok:
        bool) {
        let free: bool = Self::row_free(grid, column, row, number) && Self::column_free(
            grid,
            column,
            row,
            number,
        ) && Self::block_free(grid, column, row, number);
        proof {
            let g = grid@;
            if free {
                assert forall|c: int, r: int|
                    g.contains(c, r) && sees(g, column as int, row as int, c, r) implies #[trigger] g.cell(
                    c,
                    r,
                ) != Some(number) by {}
            } else {
                if unseen(g, column as int, row as int, number) {
                    assert forall|c: int| 0 <= c < g.size && c != column implies #[trigger] g.cell(
                        c,
                        row as int,
                    ) != Some(number) by {
                        assert(g.contains(c, row as int) && sees(g, column as int, row as int, c, row as int));
                    }
                    assert forall|r: int| 0 <= r < g.size && r != row implies #[trigger] g.cell(
                        column as int,
                        r,
                    ) != Some(number) by {
                        assert(g.contains(column as int, r) && sees(g, column as int, row as int, column as int, r));
                    }
                    assert forall|c: int, r: int|
                        g.contains(c, r) && same_block(g, column as int, row as int, c, r) && (c
                            != column || r != row) implies #[trigger] g.cell(c, r) != Some(
                        number,
                    ) by {
                        assert(sees(g, column as int, row as int, c, r));
                    }
                }
            }
        }
        free
    }
}

/// The classic rule set relaxes on removal.
pub proof fn lemma_default_relaxes()
    ensures
        relaxes_on_removal(rule_of(DefaultConstraint)),
{
    let rule = rule_of(DefaultConstraint);
    assert forall|grid: GridView, column: int, row: int, number: usize, position: int|
        grid.wf() && 0 <= position < grid.cells.len() && #[trigger] rule(
            grid,
            column,
            row,
            number,
        ) implies rule(#[trigger] grid.with_content(position, None), column, row, number) by {
        let emptied = grid.with_content(position, None);
        assert forall|c: int, r: int|
            emptied.contains(c, r) && sees(emptied, column, row, c, r) implies #[trigger] emptied.cell(
            c,
            r,
        ) != Some(number) by {
            lemma_position(grid.size as int, c, r);
            assert(grid.contains(c, r) && sees(grid, column, row, c, r));
            assert(grid.cell(c, r) != Some(number));
        }
    }
}

/// The classic rule set keeps validity.
pub proof fn lemma_default_keeps()
    ensures
        keeps_validity(rule_of(DefaultConstraint)),
{
    let rule = rule_of(DefaultConstraint);
    assert forall|grid: GridView, column: int, row: int, number: usize|
        grid.wf() && grid.contains(column, row) && 1 <= number <= grid.size && grid.cell(
            column,
            row,
        ) is None && valid(rule, grid) && rule(grid, column, row, number) implies #[trigger] valid(
        rule,
        grid.put(column, row, number),
    ) by {
        let size = grid.size as int;
        let target = grid.position(column, row);
        let after = grid.put(column, row, number);
        lemma_position(size, column, row);
        assert forall|p: int| 0 <= p < after.cells.len() implies #[trigger] cell_valid(
            rule,
            after,
            p,
        ) by {
            if p == target {
                assert(after.with_content(p, None).cells =~= grid.cells);
                assert(after.with_content(p, None) == grid);
            } else if after.cells[p] is Some {
                let digit = after.cells[p]->Some_0;
                let here_column = after.column_of(p);
                let here_row = after.row_of(p);
                lemma_coordinates(size, p);
                assert(cell_valid(rule, grid, p));
                let old_rest = grid.with_content(p, None);
                let new_rest = after.with_content(p, None);
                assert(unseen(old_rest, here_column, here_row, digit));
                assert forall|c: int, r: int|
                    new_rest.contains(c, r) && sees(
                        new_rest,
                        here_column,
                        here_row,
                        c,
                        r,
                    ) implies #[trigger] new_rest.cell(c, r) != Some(digit) by {
                    lemma_position(size, c, r);
                    assert(old_rest.contains(c, r) && sees(old_rest, here_column, here_row, c, r));
                    assert(old_rest.cell(c, r) != Some(digit));
                    if c == column && r == row && digit == number {
                        assert(grid.contains(here_column, here_row) && sees(
                            grid,
                            column,
                            row,
                            here_column,
                            here_row,
                        ));
                        assert(grid.cell(here_column, here_row) != Some(number));
                        assert(grid.position(here_column, here_row) == p);
                    } else if c != column || r != row {
                        assert(new_rest.position(c, r) != target) by {
                            lemma_position(size, column, row);
                        }
                    }
                }
            }
        }
    }
}


} // verus!
