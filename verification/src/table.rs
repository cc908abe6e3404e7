//! A fixed-size rectangular table, indexed by column `x` and row `y`.
//!
//! The mathematical model of a table is the sequence of its rows: the entry
//! at `(x, y)` is `table@[y][x]`.

use vstd::prelude::*;

verus! {

/// `rows` has `height` rows of `width` entries each.
pub open spec fn rectangular<T>(rows: Seq<Seq<T>>, width: nat, height: nat) -> bool {
    &&& rows.len() == height
    &&& forall|y: int| 0 <= y < rows.len() ==> (#[trigger] rows[y]).len() == width
}

/// `rows` with the entry at `(x, y)` replaced by `value`.
pub open spec fn with_entry<T>(rows: Seq<Seq<T>>, x: int, y: int, value: T) -> Seq<Seq<T>> {
    rows.update(y, rows[y].update(x, value))
}

/// How many of the entries of `row` are `value`.
pub open spec fn count_in_row<T>(row: Seq<T>, value: T) -> nat
    decreases row.len(),
{
    if row.len() == 0 {
        0
    } else {
        count_in_row(row.drop_last(), value) + if row.last() == value {
            1nat
        } else {
            0nat
        }
    }
}

/// How many of the entries of `rows` are `value`.
pub open spec fn count_in_rows<T>(rows: Seq<Seq<T>>, value: T) -> nat
    decreases rows.len(),
{
    if rows.len() == 0 {
        0
    } else {
        count_in_rows(rows.drop_last(), value) + count_in_row(rows.last(), value)
    }
}

/// The number of entries in `rows`, row by row.
pub open spec fn cells_in_rows<T>(rows: Seq<Seq<T>>) -> nat
    decreases rows.len(),
{
    if rows.len() == 0 {
        0
    } else {
        cells_in_rows(rows.drop_last()) + rows.last().len()
    }
}

/// A prefix of a row holds no more entries of a value than the whole row,
/// and no more than its own length.
pub proof fn lemma_count_in_row_monotone<T>(row: Seq<T>, k: int, value: T)
    requires
        0 <= k <= row.len(),
    ensures
        count_in_row(row.take(k), value) <= count_in_row(row, value) <= row.len(),
        count_in_row(row.take(k), value) <= k,
    decreases row.len(),
{
    if row.len() == 0 {
    } else if k == row.len() {
        assert(row.take(k) =~= row);
        lemma_count_in_row_monotone(row.drop_last(), k - 1, value);
    } else {
        assert(row.drop_last().take(k) =~= row.take(k));
        lemma_count_in_row_monotone(row.drop_last(), k, value);
    }
}

/// Rows of `width` entries hold at most `width` entries of a value each, and
/// `width` entries each in all.
pub proof fn lemma_count_in_rows_bounded<T>(rows: Seq<Seq<T>>, width: nat, value: T)
    requires
        forall|y: int| 0 <= y < rows.len() ==> (#[trigger] rows[y]).len() == width,
    ensures
        count_in_rows(rows, value) <= width * rows.len(),
        cells_in_rows(rows) == width * rows.len(),
    decreases rows.len(),
{
    if rows.len() > 0 {
        lemma_count_in_rows_bounded(rows.drop_last(), width, value);
        lemma_count_in_row_monotone(rows.last(), 0, value);
        assert(width * rows.len() == width * (rows.len() - 1) + width) by (nonlinear_arith);
    }
}

/// Replacing one entry of a row changes the count of `value` by what left
/// and what came.
pub proof fn lemma_count_in_row_update<T>(row: Seq<T>, x: int, entry: T, value: T)
    requires
        0 <= x < row.len(),
    ensures
        count_in_row(row.update(x, entry), value) + (if row[x] == value {
            1nat
        } else {
            0nat
        }) == count_in_row(row, value) + (if entry == value {
            1nat
        } else {
            0nat
        }),
    decreases row.len(),
{
    let after = row.update(x, entry);
    if x == row.len() - 1 {
        assert(after.drop_last() =~= row.drop_last());
    } else {
        assert(after.drop_last() =~= row.drop_last().update(x, entry));
        lemma_count_in_row_update(row.drop_last(), x, entry, value);
    }
}

/// Replacing one entry of a table changes the count of `value` by what left
/// and what came.
pub proof fn lemma_count_in_rows_update<T>(rows: Seq<Seq<T>>, x: int, y: int, entry: T, value: T)
    requires
        0 <= y < rows.len(),
        0 <= x < rows[y].len(),
    ensures
        count_in_rows(with_entry(rows, x, y, entry), value) + (if rows[y][x] == value {
            1nat
        } else {
            0nat
        }) == count_in_rows(rows, value) + (if entry == value {
            1nat
        } else {
            0nat
        }),
    decreases rows.len(),
{
    let after = with_entry(rows, x, y, entry);
    if y == rows.len() - 1 {
        assert(after.drop_last() =~= rows.drop_last());
        lemma_count_in_row_update(rows[y], x, entry, value);
    } else {
        assert(after.drop_last() =~= with_entry(rows.drop_last(), x, y, entry));
        lemma_count_in_rows_update(rows.drop_last(), x, y, entry, value);
    }
}

/// A row all of whose entries are `value` counts as many of them as it is
/// long; a row none of whose entries is `value` counts none.
pub proof fn lemma_count_in_row_uniform<T>(row: Seq<T>, value: T)
    ensures
        (forall|x: int| 0 <= x < row.len() ==> #[trigger] row[x] == value) ==> count_in_row(
            row,
            value,
        ) == row.len(),
        (forall|x: int| 0 <= x < row.len() ==> #[trigger] row[x] != value) ==> count_in_row(
            row,
            value,
        ) == 0,
    decreases row.len(),
{
    if row.len() > 0 {
        lemma_count_in_row_uniform(row.drop_last(), value);
    }
}

/// A table all of whose entries are `value` counts as many of them as it has
/// entries.
pub proof fn lemma_count_all<T>(rows: Seq<Seq<T>>, width: nat, height: nat, value: T)
    requires
        rectangular(rows, width, height),
        forall|x: int, y: int|
            0 <= y < height && 0 <= x < width ==> (#[trigger] rows[y][x]) == value,
    ensures
        count_in_rows(rows, value) == width * height,
    decreases rows.len(),
{
    if rows.len() > 0 {
        lemma_count_all(rows.drop_last(), width, (height - 1) as nat, value);
        lemma_count_in_row_uniform(rows.last(), value);
        assert(width * height == width * (height - 1) + width) by (nonlinear_arith);
    } else {
        assert(width * height == 0) by (nonlinear_arith)
            requires
                height == 0,
        ;
    }
}

/// A table none of whose entries is `value` counts none of them.
pub proof fn lemma_count_none<T>(rows: Seq<Seq<T>>, value: T)
    requires
        forall|x: int, y: int|
            0 <= y < rows.len() && 0 <= x < rows[y].len() ==> (#[trigger] rows[y][x]) != value,
    ensures
        count_in_rows(rows, value) == 0,
    decreases rows.len(),
{
    if rows.len() > 0 {
        lemma_count_none(rows.drop_last(), value);
        lemma_count_in_row_uniform(rows.last(), value);
    }
}

/// Two rows of one length that hold `value` at the same places count as
/// many of them.
pub proof fn lemma_count_in_row_agrees<T>(a: Seq<T>, b: Seq<T>, value: T)
    requires
        a.len() == b.len(),
        forall|x: int| 0 <= x < a.len() ==> (#[trigger] a[x] == value) == (b[x] == value),
    ensures
        count_in_row(a, value) == count_in_row(b, value),
    decreases a.len(),
{
    if a.len() > 0 {
        lemma_count_in_row_agrees(a.drop_last(), b.drop_last(), value);
    }
}

/// Two tables of one shape that hold `value` at the same places count as
/// many of them.
pub proof fn lemma_count_agrees<T>(a: Seq<Seq<T>>, b: Seq<Seq<T>>, value: T)
    requires
        a.len() == b.len(),
        forall|y: int| 0 <= y < a.len() ==> (#[trigger] a[y]).len() == b[y].len(),
        forall|x: int, y: int|
            0 <= y < a.len() && 0 <= x < a[y].len() ==> (#[trigger] a[y][x] == value) == (b[y][x]
                == value),
    ensures
        count_in_rows(a, value) == count_in_rows(b, value),
    decreases a.len(),
{
    if a.len() > 0 {
        let last = a.len() - 1;
        lemma_count_in_row_agrees(a.last(), b.last(), value);
        lemma_count_agrees(a.drop_last(), b.drop_last(), value);
    }
}

/// A rectangle of `width` by `height` entries whose size never changes.
pub struct Table<T> {
    width: usize,
    height: usize,
    rows: Vec<Vec<T>>,
}

impl<T> View for Table<T> {
    type V = Seq<Seq<T>>;

    closed spec fn view(&self) -> Seq<Seq<T>> {
        Seq::new(self.rows@.len(), |y: int| self.rows@[y]@)
    }
}

impl<T: Copy> Table<T> {
    /// The number of columns.
    pub closed spec fn spec_width(&self) -> nat {
        self.width as nat
    }

    /// The number of rows.
    pub closed spec fn spec_height(&self) -> nat {
        self.height as nat
    }

    /// The table is a rectangle of its stated size.
    pub open spec fn wf(&self) -> bool {
        rectangular(self@, self.spec_width(), self.spec_height())
    }

    /// `(x, y)` names an entry of the table.
    pub open spec fn in_bounds(&self, x: int, y: int) -> bool {
        0 <= x < self.spec_width() && 0 <= y < self.spec_height()
    }

    /// A table of `width` by `height` entries, all of them `value`.
    pub fn filled(width: usize, height: usize, value: T) -> (table: Table<T>)
        ensures
            table.wf(),
            table.spec_width() == width,
            table.spec_height() == height,
            forall|x: int, y: int| table.in_bounds(x, y) ==> #[trigger] table@[y][x] == value,
    {
        let mut rows: Vec<Vec<T>> = Vec::new();
        let mut y: usize = 0;
        while y < height
            invariant
                y <= height,
                rows@.len() == y,
                forall|j: int| 0 <= j < y ==> (#[trigger] rows@[j])@.len() == width,
                forall|i: int, j: int|
                    0 <= j < y && 0 <= i < width ==> #[trigger] rows@[j]@[i] == value,
            decreases height - y,
        {
            let mut row: Vec<T> = Vec::new();
            let mut x: usize = 0;
            while x < width
                invariant
                    x <= width,
                    row@.len() == x,
                    forall|i: int| 0 <= i < x ==> #[trigger] row@[i] == value,
                decreases width - x,
            {
                row.push(value);
                x += 1;
            }
            rows.push(row);
            y += 1;
        }
        Table { width, height, rows }
    }

    /// The number of columns.
    pub fn width(&self) -> (w: usize)
        ensures
            w == self.spec_width(),
    {
        self.width
    }

    /// The number of rows.
    pub fn height(&self) -> (h: usize)
        ensures
            h == self.spec_height(),
    {
        self.height
    }

    /// The entry at `(x, y)`.
    pub fn get(&self, x: usize, y: usize) -> (value: T)
        requires
            self.wf(),
            self.in_bounds(x as int, y as int),
        ensures
            value == self@[y as int][x as int],
    {
        assert(self@[y as int].len() == self.spec_width());
        self.rows[y][x]
    }

    /// Puts `value` at `(x, y)` and leaves every other entry as it was.
    pub fn set(&mut self, x: usize, y: usize, value: T)
        requires
            old(self).wf(),
            old(self).in_bounds(x as int, y as int),
        ensures
            final(self).wf(),
            final(self).spec_width() == old(self).spec_width(),
            final(self).spec_height() == old(self).spec_height(),
            final(self)@ == with_entry(old(self)@, x as int, y as int, value),
    {
        assert(self@[y as int].len() == self.spec_width());
        self.rows[y][x] = value;
        assert(self@ =~~= with_entry(old(self)@, x as int, y as int, value));
    }
}

} // verus!
