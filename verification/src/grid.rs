//! The maze grid: a rectangle of cells, each a wall, an open floor tile or a
//! floor tile that still holds a pellet.
//!
//! Coordinates are `(x, y)` pairs with `x` the column and `y` the row. The
//! mathematical model of a grid is the sequence of its rows, so that the cell
//! at `(x, y)` is `grid@[y][x]`.

use crate::table::{
    cells_in_rows, count_in_row, count_in_rows, lemma_count_in_row_monotone,
    lemma_count_in_rows_bounded, rectangular, with_entry, Table,
};
use vstd::prelude::*;

verus! {

/// The state of one cell of the maze.
#[derive(Clone, Copy, Debug, PartialEq, Eq, Structural)]
pub enum Cell {
    /// Blocks movement and search.
    Wall,
    /// Floor without a pellet.
    Open,
    /// Floor with a pellet on it.
    Pellet,
}

/// The rows that `refill` makes of `rows`: walls stay, every other cell
/// holds a pellet.
pub open spec fn refilled(rows: Seq<Seq<Cell>>) -> Seq<Seq<Cell>> {
    Seq::new(
        rows.len(),
        |y: int|
            Seq::new(
                rows[y].len(),
                |x: int|
                    if rows[y][x] == Cell::Wall {
                        Cell::Wall
                    } else {
                        Cell::Pellet
                    },
            ),
    )
}

/// A fixed-size rectangle of cells.
pub struct Grid {
    cells: Table<Cell>,
}

impl View for Grid {
    type V = Seq<Seq<Cell>>;

    closed spec fn view(&self) -> Seq<Seq<Cell>> {
        self.cells@
    }
}

impl Grid {
    /// The number of columns.
    pub closed spec fn spec_width(&self) -> nat {
        self.cells.spec_width()
    }

    /// The number of rows.
    pub closed spec fn spec_height(&self) -> nat {
        self.cells.spec_height()
    }

    /// The grid is a rectangle of its stated size.
    pub open spec fn wf(&self) -> bool {
        rectangular(self@, self.spec_width(), self.spec_height())
    }

    /// `(x, y)` names a cell of the grid.
    pub open spec fn in_bounds(&self, x: int, y: int) -> bool {
        0 <= x < self.spec_width() && 0 <= y < self.spec_height()
    }

    /// `(x, y)` names a cell that is not on the outer ring.
    pub open spec fn interior(&self, x: int, y: int) -> bool {
        1 <= x < self.spec_width() - 1 && 1 <= y < self.spec_height() - 1
    }

    /// `(x, y)` names a cell on the outer ring: first or last row or column.
    pub open spec fn on_border(&self, x: int, y: int) -> bool {
        self.in_bounds(x, y) && !self.interior(x, y)
    }

    /// The cell at `(x, y)`.
    pub open spec fn at(&self, x: int, y: int) -> Cell {
        self@[y][x]
    }

    /// `(x, y)` is a cell of the grid that an actor may stand on.
    pub open spec fn passable(&self, x: int, y: int) -> bool {
        self.in_bounds(x, y) && self.at(x, y) != Cell::Wall
    }

    /// Every cell of the outer ring is a wall.
    pub open spec fn walled_in(&self) -> bool {
        forall|x: int, y: int| self.on_border(x, y) ==> #[trigger] self.at(x, y) == Cell::Wall
    }

    /// How many cells of the grid are `kind`.
    pub open spec fn spec_count(&self, kind: Cell) -> nat {
        count_in_rows(self@, kind)
    }

    /// A grid of `width` by `height` cells, all of them `cell`.
    pub fn filled(width: usize, height: usize, cell: Cell) -> (grid: Grid)
        ensures
            grid.wf(),
            grid.spec_width() == width,
            grid.spec_height() == height,
            forall|x: int, y: int| grid.in_bounds(x, y) ==> #[trigger] grid.at(x, y) == cell,
    {
        Grid { cells: Table::filled(width, height, cell) }
    }

    /// The number of columns.
    pub fn width(&self) -> (w: usize)
        ensures
            w == self.spec_width(),
    {
        self.cells.width()
    }

    /// The number of rows.
    pub fn height(&self) -> (h: usize)
        ensures
            h == self.spec_height(),
    {
        self.cells.height()
    }

    /// The cell at `(x, y)`.
    pub fn get(&self, x: usize, y: usize) -> (cell: Cell)
        requires
            self.wf(),
            self.in_bounds(x as int, y as int),
        ensures
            cell == self.at(x as int, y as int),
    {
        self.cells.get(x, y)
    }

    /// Whether `(x, y)` is a cell of the grid that is not a wall.
    pub fn is_passable(&self, x: usize, y: usize) -> (free: bool)
        requires
            self.wf(),
        ensures
            free == self.passable(x as int, y as int),
    {
        if x < self.cells.width() && y < self.cells.height() {
            self.get(x, y) != Cell::Wall
        } else {
            false
        }
    }

    /// Puts `cell` at `(x, y)` and leaves every other cell as it was.
    pub fn set(&mut self, x: usize, y: usize, cell: Cell)
        requires
            old(self).wf(),
            old(self).in_bounds(x as int, y as int),
        ensures
            final(self).wf(),
            final(self).spec_width() == old(self).spec_width(),
            final(self).spec_height() == old(self).spec_height(),
            final(self)@ == with_entry(old(self)@, x as int, y as int, cell),
    {
        self.cells.set(x, y, cell);
    }

    /// Puts a pellet on every cell that is not a wall.
    pub fn refill(&mut self)
        requires
            old(self).wf(),
        ensures
            final(self).wf(),
            final(self).spec_width() == old(self).spec_width(),
            final(self).spec_height() == old(self).spec_height(),
            final(self)@ == refilled(old(self)@),
    {
        let ghost before = self@;
        let width = self.width();
        let height = self.height();
        let mut y: usize = 0;
        while y < height
            invariant
                self.wf(),
                width == self.spec_width(),
                height == self.spec_height(),
                self.spec_width() == old(self).spec_width(),
                self.spec_height() == old(self).spec_height(),
                rectangular(before, self.spec_width(), self.spec_height()),
                y <= height,
                forall|i: int, j: int|
                    0 <= j < height && 0 <= i < width ==> #[trigger] self@[j][i] == (if j
                        < y {
                        refilled(before)[j][i]
                    } else {
                        before[j][i]
                    }),
            decreases height - y,
        {
            let mut x: usize = 0;
            while x < width
                invariant
                    self.wf(),
                    width == self.spec_width(),
                    height == self.spec_height(),
                width == self.spec_width(),
                height == self.spec_height(),
                    self.spec_width() == old(self).spec_width(),
                    self.spec_height() == old(self).spec_height(),
                    rectangular(before, self.spec_width(), self.spec_height()),
                    y < height,
                    x <= width,
                    forall|i: int, j: int|
                        0 <= j < height && 0 <= i < width ==> #[trigger] self@[j][i]
                            == (if j < y || (j == y && i < x) {
                            refilled(before)[j][i]
                        } else {
                            before[j][i]
                        }),
                decreases width - x,
            {
                if self.get(x, y) != Cell::Wall {
                    self.set(x, y, Cell::Pellet);
                }
                x += 1;
            }
            y += 1;
        }
        assert(self@ =~~= refilled(before));
    }

    /// How many cells of the grid are `kind`.
    pub fn count(&self, kind: Cell) -> (n: usize)
        requires
            self.wf(),
            self.spec_width() * self.spec_height() <= usize::MAX,
        ensures
            n == self.spec_count(kind),
    {
        let width = self.width();
        let height = self.height();
        let mut n: usize = 0;
        let mut y: usize = 0;
        while y < height
            invariant
                self.wf(),
                width == self.spec_width(),
                height == self.spec_height(),
                self.spec_width() * self.spec_height() <= usize::MAX,
                y <= height,
                n == count_in_rows(self@.take(y as int), kind),
            decreases height - y,
        {
            let mut x: usize = 0;
            let ghost before = n;
            while x < width
                invariant
                    self.wf(),
                    width == self.spec_width(),
                    height == self.spec_height(),
                width == self.spec_width(),
                height == self.spec_height(),
                    self.spec_width() * self.spec_height() <= usize::MAX,
                    y < height,
                    x <= width,
                    before == count_in_rows(self@.take(y as int), kind),
                    n == before + count_in_row(self@[y as int].take(x as int), kind),
                decreases width - x,
            {
                proof {
                    let row = self@[y as int];
                    assert(row.take(x + 1).drop_last() =~= row.take(x as int));
                    assert(self@.take(y + 1).drop_last() =~= self@.take(y as int));
                    lemma_count_in_row_monotone(row, x + 1, kind);
                    lemma_count_in_rows_bounded(self@.take(y + 1), self.spec_width(), kind);
                    vstd::arithmetic::mul::lemma_mul_inequality(
                        y + 1,
                        self.spec_height() as int,
                        self.spec_width() as int,
                    );
                    vstd::arithmetic::mul::lemma_mul_is_commutative(
                        self.spec_width() as int,
                        self.spec_height() as int,
                    );
                    vstd::arithmetic::mul::lemma_mul_is_commutative(
                        self.spec_width() as int,
                        y + 1,
                    );
                }
                if self.get(x, y) == kind {
                    n += 1;
                }
                x += 1;
            }
            proof {
                assert(self@[y as int].take(x as int) =~= self@[y as int]);
                assert(self@.take(y + 1).drop_last() =~= self@.take(y as int));
            }
            y += 1;
        }
        proof {
            assert(self@.take(y as int) =~= self@);
        }
        n
    }
}

/// Every cell of a row is a wall, open or a pellet, so the three counts add
/// up to the length of the row.
pub proof fn lemma_row_counts_partition(row: Seq<Cell>)
    ensures
        count_in_row(row, Cell::Wall) + count_in_row(row, Cell::Open) + count_in_row(
            row,
            Cell::Pellet,
        ) == row.len(),
    decreases row.len(),
{
    if row.len() > 0 {
        lemma_row_counts_partition(row.drop_last());
    }
}

/// Every cell of a grid is a wall, open or a pellet: the three counts add up
/// to the number of cells, which is the width times the height.
pub proof fn lemma_counts_partition(grid: Grid)
    requires
        grid.wf(),
    ensures
        grid.spec_count(Cell::Wall) + grid.spec_count(Cell::Open) + grid.spec_count(Cell::Pellet)
            == grid.spec_width() * grid.spec_height(),
{
    lemma_rows_counts_partition(grid@);
    lemma_count_in_rows_bounded(grid@, grid.spec_width(), Cell::Wall);
}

/// The three counts of any stack of rows add up to its number of cells.
pub proof fn lemma_rows_counts_partition(rows: Seq<Seq<Cell>>)
    ensures
        count_in_rows(rows, Cell::Wall) + count_in_rows(rows, Cell::Open) + count_in_rows(
            rows,
            Cell::Pellet,
        ) == cells_in_rows(rows),
    decreases rows.len(),
{
    if rows.len() > 0 {
        lemma_rows_counts_partition(rows.drop_last());
        lemma_row_counts_partition(rows.last());
    }
}

} // verus!
