use vstd::prelude::*;
use crate::error::{SudokuError, SudokuResult};

verus! {

/// What a grid holds, as plain mathematical values. The cell in column `c` of
/// row `r` stands at position `r * size + c` of `cells`.
pub struct GridView {
    pub block_width: nat,
    pub block_height: nat,
    pub size: nat,
    pub cells: Seq<Option<usize>>,
}

/// How many entries of `cells` hold a digit.
pub open spec fn count_filled(cells: Seq<Option<usize>>) -> nat
    decreases cells.len(),
{
    if cells.len() == 0 {
        0
    } else {
        count_filled(cells.drop_last()) + if cells.last() is Some {
            1nat
        } else {
            0nat
        }
    }
}

/// The grid of the given block dimensions in which every cell is empty.
pub open spec fn empty_grid(block_width: nat, block_height: nat) -> GridView {
    GridView {
        block_width,
        block_height,
        size: block_width * block_height,
        cells: Seq::new(
            (block_width * block_height) * (block_width * block_height),
            |p: int| None::<usize>,
        ),
    }
}

impl GridView {
    /// The dimensions fit together and every digit lies in `1..=size`.
    pub open spec fn wf(self) -> bool {
        &&& self.block_width > 0
        &&& self.block_height > 0
        &&& self.size == self.block_width * self.block_height
        &&& self.cells.len() == self.size * self.size
        &&& forall|p: int|
            0 <= p < self.cells.len() ==> match #[trigger] self.cells[p] {
                Some(d) => 1 <= d <= self.size,
                None => true,
            }
    }

    pub open spec fn contains(self, column: int, row: int) -> bool {
        0 <= column < self.size && 0 <= row < self.size
    }

    pub open spec fn position(self, column: int, row: int) -> int {
        row * self.size + column
    }

    pub open spec fn column_of(self, position: int) -> int {
        position % (self.size as int)
    }

    pub open spec fn row_of(self, position: int) -> int {
        position / (self.size as int)
    }

    pub open spec fn cell(self, column: int, row: int) -> Option<usize> {
        self.cells[self.position(column, row)]
    }

    /// The grid with the content of one position replaced.
    pub open spec fn with_content(self, position: int, content: Option<usize>) -> GridView {
        GridView { cells: self.cells.update(position, content), ..self }
    }

    /// The grid with `number` written into the given cell.
    pub open spec fn put(self, column: int, row: int, number: usize) -> GridView {
        self.with_content(self.position(column, row), Some(number))
    }

    /// The grid with the given cell emptied.
    pub open spec fn without(self, column: int, row: int) -> GridView {
        self.with_content(self.position(column, row), None)
    }

    pub open spec fn is_full(self) -> bool {
        forall|p: int| 0 <= p < self.cells.len() ==> #[trigger] self.cells[p] is Some
    }

    pub open spec fn clue_count(self) -> nat {
        count_filled(self.cells)
    }

    /// Same dimensions, and every digit of `self` stands in the same cell of
    /// `other`.
    pub open spec fn within(self, other: GridView) -> bool {
        &&& self.block_width == other.block_width
        &&& self.block_height == other.block_height
        &&& self.size == other.size
        &&& self.cells.len() == other.cells.len()
        &&& forall|p: int|
            0 <= p < self.cells.len() ==> #[trigger] self.cells[p] is None || self.cells[p]
                == other.cells[p]
    }
}

/// Row-major positions and coordinates correspond one to one.
pub proof fn lemma_position(size: int, column: int, row: int)
    requires
        0 <= column < size,
        0 <= row < size,
    ensures
        0 <= row * size <= row * size + column < size * size,
        (row * size + column) % size == column,
        (row * size + column) / size == row,
{
    assert(row * size + column < size * size) by (nonlinear_arith)
        requires
            0 <= column < size,
            0 <= row < size,
    ;
    assert(0 <= row * size) by (nonlinear_arith)
        requires
            0 <= row,
            0 < size,
    ;
    vstd::arithmetic::div_mod::lemma_fundamental_div_mod_converse_mod(
        row * size + column,
        size,
        row,
        column,
    );
    vstd::arithmetic::div_mod::lemma_fundamental_div_mod_converse_div(
        row * size + column,
        size,
        row,
        column,
    );
}

/// Every position below `size * size` is the position of one cell.
pub proof fn lemma_coordinates(size: int, position: int)
    requires
        0 < size,
        0 <= position < size * size,
    ensures
        0 <= position % size < size,
        0 <= position / size < size,
        (position / size) * size + position % size == position,
{
    vstd::arithmetic::div_mod::lemma_fundamental_div_mod(position, size);
    assert(size * (position / size) == (position / size) * size) by (nonlinear_arith);
    assert(0 <= position / size < size) by (nonlinear_arith)
        requires
            0 <= position < size * size,
            size > 0,
            position == (position / size) * size + position % size,
            0 <= position % size < size,
    ;
}

/// Replacing one entry changes the count by what the entry gains or loses.
pub proof fn lemma_count_update(cells: Seq<Option<usize>>, position: int, content: Option<usize>)
    requires
        0 <= position < cells.len(),
    ensures
        count_filled(cells.update(position, content)) + (if cells[position] is Some {
            1nat
        } else {
            0nat
        }) == count_filled(cells) + (if content is Some {
            1nat
        } else {
            0nat
        }),
    decreases cells.len(),
{
    let updated = cells.update(position, content);
    if position == cells.len() - 1 {
        assert(updated.drop_last() =~= cells.drop_last());
    } else {
        assert(updated.drop_last() =~= cells.drop_last().update(position, content));
        lemma_count_update(cells.drop_last(), position, content);
    }
}

/// No more cells are filled than there are cells, and all are exactly when the
/// grid is full.
pub proof fn lemma_count_bound(cells: Seq<Option<usize>>)
    ensures
        count_filled(cells) <= cells.len(),
        count_filled(cells) == cells.len() <==> (forall|p: int|
            0 <= p < cells.len() ==> #[trigger] cells[p] is Some),
        count_filled(cells) == 0 <==> (forall|p: int|
            0 <= p < cells.len() ==> #[trigger] cells[p] is None),
    decreases cells.len(),
{
    if cells.len() > 0 {
        let front = cells.drop_last();
        lemma_count_bound(front);
        assert forall|p: int| 0 <= p < front.len() implies front[p] == cells[p] by {}
        if count_filled(cells) == cells.len() {
            assert forall|p: int| 0 <= p < cells.len() implies #[trigger] cells[p] is Some by {
                if p < front.len() {
                    assert(front[p] is Some);
                }
            }
        }
        if count_filled(cells) == 0 {
            assert forall|p: int| 0 <= p < cells.len() implies #[trigger] cells[p] is None by {
                if p < front.len() {
                    assert(front[p] is None);
                }
            }
        }
        if forall|p: int| 0 <= p < cells.len() ==> #[trigger] cells[p] is Some {
            assert forall|p: int| 0 <= p < front.len() implies #[trigger] front[p] is Some by {
                assert(cells[p] is Some);
            }
        }
        if forall|p: int| 0 <= p < cells.len() ==> #[trigger] cells[p] is None {
            assert forall|p: int| 0 <= p < front.len() implies #[trigger] front[p] is None by {
                assert(cells[p] is None);
            }
        }
    }
}

/// A square grid of `size = block_width * block_height` columns and rows, each
/// cell empty or holding a digit in `1..=size`.
#[derive(Debug)]
pub struct SudokuGrid {
    block_width: usize,
    block_height: usize,
    size: usize,
    cells: Vec<Option<usize>>,
}

impl View for SudokuGrid {
    type V = GridView;

    closed spec fn view(&self) -> GridView {
        GridView {
            block_width: self.block_width as nat,
            block_height: self.block_height as nat,
            size: self.size as nat,
            cells: self.cells@,
        }
    }
}

impl Clone for SudokuGrid {
    fn clone(&self) -> (copy: SudokuGrid)
        ensures
            copy@ == self@,
    {
        let mut cells: Vec<Option<usize>> = Vec::new();
        let mut p: usize = 0;
        while p < self.cells.len()
            invariant
                p <= self.cells.len(),
                cells@ == self.cells@.take(p as int),
            decreases self.cells.len() - p,
        {
            cells.push(self.cells[p]);
            p += 1;
            assert(cells@ =~= self.cells@.take(p as int));
        }
        assert(cells@ =~= self.cells@);
        SudokuGrid {
            block_width: self.block_width,
            block_height: self.block_height,
            size: self.size,
            cells,
        }
    }
}

impl SudokuGrid {
    pub open spec fn wf(&self) -> bool {
        self@.wf()
    }

    /// Creates an empty grid whose blocks are `block_width` cells wide and
    /// `block_height` cells high. Fails exactly when one of the two is zero.
    pub fn new(block_width: usize, block_height: usize) -> (result: SudokuResult<SudokuGrid>)
        requires
            block_width * block_height * (block_width * block_height) <= usize::MAX,
        ensures
            match result {
                Ok(grid) => block_width > 0 && block_height > 0 && grid.wf() && grid@
                    == empty_grid(block_width as nat, block_height as nat),
                Err(e) => e == SudokuError::InvalidDimensions && (block_width == 0 || block_height
                    == 0),
            },
    {
        if block_width == 0 || block_height == 0 {
            return Err(SudokuError::InvalidDimensions);
        }
        assert(block_width * block_height <= usize::MAX && block_width * block_height > 0)
            by (nonlinear_arith)
            requires
                block_width * block_height * (block_width * block_height) <= usize::MAX,
                block_width > 0,
                block_height > 0,
        ;
        let size: usize = block_width * block_height;
        let count: usize = size * size;
        let mut cells: Vec<Option<usize>> = Vec::new();
        let mut p: usize = 0;
        while p < count
            invariant
                p <= count,
                cells@ == Seq::new(p as nat, |q: int| None::<usize>),
            decreases count - p,
        {
            cells.push(None);
            p += 1;
            assert(cells@ =~= Seq::new(p as nat, |q: int| None::<usize>));
        }
        let grid = SudokuGrid { block_width, block_height, size, cells };
        assert(grid@ == empty_grid(block_width as nat, block_height as nat));
        Ok(grid)
    }

    pub fn block_width(&self) -> (width: usize)
        ensures
            width == self@.block_width,
    {
        self.block_width
    }

    pub fn block_height(&self) -> (height: usize)
        ensures
            height == self@.block_height,
    {
        self.block_height
    }

    /// The number of columns, which is also the number of rows and the largest
    /// digit.
    pub fn size(&self) -> (size: usize)
        ensures
            size == self@.size,
            self.wf() ==> size * size <= usize::MAX,
    {
        let count: usize = self.cells.len();
        assert(self.wf() ==> count == self.size * self.size);
        self.size
    }

    fn index_of(&self, column: usize, row: usize) -> (position: usize)
        requires
            self.wf(),
            self@.contains(column as int, row as int),
        ensures
            position == self@.position(column as int, row as int),
            position < self.cells@.len(),
    {
        let count: usize = self.cells.len();
        proof {
            lemma_position(self.size as int, column as int, row as int);
            assert(row * self.size + column < count);
        }
        row * self.size + column
    }

    /// The content of the cell in the given column and row. Fails exactly when
    /// the cell lies outside the grid.
    pub fn get_cell(&self, column: usize, row: usize) -> (result: SudokuResult<Option<usize>>)
        requires
            self.wf(),
        ensures
            match result {
                Ok(content) => self@.contains(column as int, row as int) && content == self@.cell(
                    column as int,
                    row as int,
                ),
                Err(e) => e == SudokuError::OutOfBounds && !self@.contains(
                    column as int,
                    row as int,
                ),
            },
    {
        if column >= self.size || row >= self.size {
            return Err(SudokuError::OutOfBounds);
        }
        let position: usize = self.index_of(column, row);
        Ok(self.cells[position])
    }

    /// Writes `number` into the given cell. A cell outside the grid is
    /// refused first, then a number outside `1..=size`; a refusal leaves the
    /// grid as it was.
    pub fn set_cell(&mut self, column: usize, row: usize, number: usize) -> (result: SudokuResult<
        (),
    >)
        requires
            old(self).wf(),
        ensures
            final(self).wf(),
            match result {
                Ok(_) => old(self)@.contains(column as int, row as int) && 1 <= number <= old(
                    self,
                )@.size && final(self)@ == old(self)@.put(column as int, row as int, number),
                Err(e) => final(self)@ == old(self)@ && if !old(self)@.contains(
                    column as int,
                    row as int,
                ) {
                    e == SudokuError::OutOfBounds
                } else {
                    e == SudokuError::InvalidNumber && !(1 <= number <= old(self)@.size)
                },
            },
    {
        if column >= self.size || row >= self.size {
            return Err(SudokuError::OutOfBounds);
        }
        if number == 0 || number > self.size {
            return Err(SudokuError::InvalidNumber);
        }
        let position: usize = self.index_of(column, row);
        self.cells.set(position, Some(number));
        Ok(())
    }

    /// Empties the given cell. Fails, leaving the grid as it was, exactly when
    /// the cell lies outside the grid.
    pub fn clear_cell(&mut self, column: usize, row: usize) -> (result: SudokuResult<()>)
        requires
            old(self).wf(),
        ensures
            final(self).wf(),
            match result {
                Ok(_) => old(self)@.contains(column as int, row as int) && final(self)@ == old(
                    self,
                )@.without(column as int, row as int),
                Err(e) => e == SudokuError::OutOfBounds && final(self)@ == old(self)@ && !old(
                    self,
                )@.contains(column as int, row as int),
            },
    {
        if column >= self.size || row >= self.size {
            return Err(SudokuError::OutOfBounds);
        }
        let position: usize = self.index_of(column, row);
        self.cells.set(position, None);
        Ok(())
    }

    /// The number of cells that hold a digit.
    pub fn count_clues(&self) -> (count: usize)
        requires
            self.wf(),
        ensures
            count == self@.clue_count(),
    {
        let mut count: usize = 0;
        let mut p: usize = 0;
        while p < self.cells.len()
            invariant
                p <= self.cells.len(),
                count == count_filled(self.cells@.take(p as int)),
                count <= p,
            decreases self.cells.len() - p,
        {
            assert(self.cells@.take(p + 1).drop_last() =~= self.cells@.take(p as int));
            if self.cells[p].is_some() {
                count += 1;
            }
            p += 1;
        }
        assert(self.cells@.take(p as int) =~= self.cells@);
        count
    }

    /// Whether every cell holds a digit.
    pub fn is_full(&self) -> (full: bool)
        requires
            self.wf(),
        ensures
            full == self@.is_full(),
    {
        proof {
            lemma_count_bound(self.cells@);
        }
        self.count_clues() == self.cells.len()
    }

    /// Whether no cell holds a digit.
    pub fn is_empty(&self) -> (empty: bool)
        requires
            self.wf(),
        ensures
            empty == (self@.clue_count() == 0),
    {
        self.count_clues() == 0
    }
}

} // verus!
