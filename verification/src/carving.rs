//! Why carving opens every cell of the lattice and comes to an end.
//!
//! While a maze is carved, every open cell of the lattice either waits in
//! the work queue or has opened the cells of the lattice a leap away. When
//! the queue runs empty, every cell of the lattice has therefore been
//! opened. Each cell that joins the queue was a wall before, so the number
//! of walls bounds the work.

use crate::grid::{Cell, Grid};
use crate::maze::{
    carved_around, carved_toward, half, inside, is_leap, leap, leaps, on_lattice, opened,
    Carving,
};
use crate::path::{
    cell_of, lemma_walk_append, lemma_walk_survives, moved, reachable, reaches_in,
};
use crate::table::{count_in_rows, lemma_count_in_rows_update, rectangular, with_entry};
use vstd::prelude::*;

verus! {

/// Every cell of `rows` that is not inside the outer ring is a wall.
pub open spec fn ringed(rows: Seq<Seq<Cell>>) -> bool {
    forall|x: int, y: int|
        0 <= y < rows.len() && 0 <= x < rows[y].len() && !inside(rows, (x, y))
            ==> #[trigger] rows[y][x] == Cell::Wall
}

/// No cell of `rows` holds a pellet.
pub open spec fn bare(rows: Seq<Seq<Cell>>) -> bool {
    forall|x: int, y: int|
        0 <= y < rows.len() && 0 <= x < rows[y].len() ==> #[trigger] rows[y][x] != Cell::Pellet
}

/// What holds of the cells of a maze and of its work queue while it is
/// carved from `start`: the outer ring is wall, the start and the cells in
/// the queue are open cells of the lattice, and every other open cell of the
/// lattice has opened the cells of the lattice a leap away.
pub open spec fn carving_inv(
    rows: Seq<Seq<Cell>>,
    width: nat,
    height: nat,
    frontier: Seq<(usize, usize)>,
    start: (int, int),
) -> bool {
    &&& rectangular(rows, width, height)
    &&& ringed(rows)
    &&& bare(rows)
    &&& on_lattice(rows, start)
    &&& opened(rows, start)
    &&& forall|i: int|
        0 <= i < frontier.len() ==> {
            &&& on_lattice(rows, cell_of(#[trigger] frontier[i]))
            &&& opened(rows, cell_of(frontier[i]))
        }
    &&& forall|cell: (int, int), k: int|
        on_lattice(rows, cell) && #[trigger] opened(rows, cell) && !waits(frontier, cell) && 0 <= k
            < 4 && inside(rows, moved(cell, #[trigger] leap(k))) ==> opened(
            rows,
            moved(cell, leap(k)),
        )
}

/// `cell` waits in the work queue.
pub open spec fn waits(frontier: Seq<(usize, usize)>, cell: (int, int)) -> bool {
    exists|i: int| 0 <= i < frontier.len() && cell_of(#[trigger] frontier[i]) == cell
}

/// A rearrangement of the four leaps holds leaps only, and each of the
/// four.
pub proof fn lemma_rearranged_leaps(order: Seq<(i32, i32)>)
    requires
        order.to_multiset() == leaps().to_multiset(),
    ensures
        forall|i: int| 0 <= i < order.len() ==> is_leap(#[trigger] order[i]),
        forall|k: int| 0 <= k < 4 ==> order.contains(#[trigger] leap(k)),
{
    order.to_multiset_ensures();
    leaps().to_multiset_ensures();
    assert forall|k: int| 0 <= k < 4 implies order.contains(#[trigger] leap(k)) by {
        assert(order.to_multiset().count(leap(k)) > 0);
    }
}

/// `after` came from `before` by leaps from `cell`: walls were opened
/// inside the outer ring and nothing else changed; the queue grew at its end
/// by cells that were walls, lie a leap from `cell` with the cell between
/// open, and are open now; every other opened cell lies an odd number of
/// cells from `cell` on one axis; and there are fewer walls if the queue
/// grew, the same cells if it did not.
pub open spec fn grown(before: Carving, after: Carving, cell: (int, int)) -> bool {
    &&& after.rows.len() == before.rows.len()
    &&& forall|y: int|
        0 <= y < before.rows.len() ==> (#[trigger] after.rows[y]).len() == before.rows[y].len()
    &&& forall|x: int, y: int|
        0 <= y < before.rows.len() && 0 <= x < before.rows[y].len() ==> {
            ||| #[trigger] after.rows[y][x] == before.rows[y][x]
            ||| {
                &&& before.rows[y][x] == Cell::Wall
                &&& after.rows[y][x] == Cell::Open
                &&& inside(before.rows, (x, y))
                &&& (x - cell.0) % 2 != 0 || (y - cell.1) % 2 != 0 || joined(before, after, (x, y))
            }
        }
    &&& before.frontier.len() <= after.frontier.len()
    &&& forall|i: int|
        0 <= i < before.frontier.len() ==> #[trigger] after.frontier[i] == before.frontier[i]
    &&& forall|i: int|
        before.frontier.len() <= i < after.frontier.len() ==> {
            let new = cell_of(#[trigger] after.frontier[i]);
            &&& inside(before.rows, new)
            &&& (new.0 - cell.0) % 2 == 0
            &&& (new.1 - cell.1) % 2 == 0
            &&& before.rows[new.1][new.0] == Cell::Wall
            &&& after.rows[new.1][new.0] == Cell::Open
            &&& leapt(after.rows, cell, new)
        }
    &&& after.frontier.len() == before.frontier.len() ==> after.rows == before.rows
    &&& after.frontier.len() > before.frontier.len() ==> count_in_rows(after.rows, Cell::Wall)
        < count_in_rows(before.rows, Cell::Wall)
}

/// `to` lies a leap from `from`, and the cell between them is open.
pub open spec fn leapt(rows: Seq<Seq<Cell>>, from: (int, int), to: (int, int)) -> bool {
    exists|k: int|
        0 <= k < 4 && to == moved(from, #[trigger] leap(k)) && opened(
            rows,
            moved(from, half(leap(k))),
        )
}

/// `cell` joined the queue between `before` and `after`.
pub open spec fn joined(before: Carving, after: Carving, cell: (int, int)) -> bool {
    exists|i: int|
        before.frontier.len() <= i < after.frontier.len() && cell_of(#[trigger] after.frontier[i])
            == cell
}

/// One leap from a cell of the grid makes the carving grow, and where the
/// leap ends inside the outer ring, its end is open afterwards.
pub proof fn lemma_carved_toward_grown(
    c: Carving,
    cell: (int, int),
    step: (i32, i32),
    width: nat,
    height: nat,
)
    requires
        rectangular(c.rows, width, height),
        bare(c.rows),
        width <= usize::MAX,
        height <= usize::MAX,
        0 <= cell.0 < width,
        0 <= cell.1 < height,
        is_leap(step),
    ensures
        rectangular(carved_toward(c, cell, step).rows, width, height),
        bare(carved_toward(c, cell, step).rows),
        grown(c, carved_toward(c, cell, step), cell),
        inside(c.rows, moved(cell, step)) ==> opened(
            carved_toward(c, cell, step).rows,
            moved(cell, step),
        ),
{
    let after = carved_toward(c, cell, step);
    let dest = moved(cell, step);
    let mid = moved(cell, half(step));
    if inside(c.rows, dest) && c.rows[dest.1][dest.0] == Cell::Wall {
        let first = with_entry(c.rows, dest.0, dest.1, Cell::Open);
        assert(after.frontier[c.frontier.len() as int] == (dest.0 as usize, dest.1 as usize));
        lemma_count_in_rows_update(c.rows, dest.0, dest.1, Cell::Open, Cell::Wall);
        lemma_count_in_rows_update(first, mid.0, mid.1, Cell::Open, Cell::Wall);
    }
}

/// Growth goes on: what grew from a carving that grew has grown from the
/// first.
pub proof fn lemma_grown_twice(a: Carving, b: Carving, c: Carving, cell: (int, int))
    requires
        grown(a, b, cell),
        grown(b, c, cell),
    ensures
        grown(a, c, cell),
{
    assert forall|x: int, y: int| 0 <= y < a.rows.len() && 0 <= x < a.rows[y].len() implies {
        ||| #[trigger] c.rows[y][x] == a.rows[y][x]
        ||| {
            &&& a.rows[y][x] == Cell::Wall
            &&& c.rows[y][x] == Cell::Open
            &&& inside(a.rows, (x, y))
            &&& (x - cell.0) % 2 != 0 || (y - cell.1) % 2 != 0 || joined(a, c, (x, y))
        }
    } by {
        if joined(a, b, (x, y)) {
            let i = choose|i: int|
                a.frontier.len() <= i < b.frontier.len() && cell_of(#[trigger] b.frontier[i]) == (
                    x,
                    y,
                );
            assert(c.frontier[i] == b.frontier[i]);
        }
    }
}

/// The leaps of `order` from a cell of the grid make the carving grow, and
/// where one of them ends inside the outer ring, its end is open afterwards.
pub proof fn lemma_carved_around_grown(
    c: Carving,
    cell: (int, int),
    order: Seq<(i32, i32)>,
    width: nat,
    height: nat,
)
    requires
        rectangular(c.rows, width, height),
        bare(c.rows),
        width <= usize::MAX,
        height <= usize::MAX,
        0 <= cell.0 < width,
        0 <= cell.1 < height,
        forall|i: int| 0 <= i < order.len() ==> is_leap(#[trigger] order[i]),
    ensures
        rectangular(carved_around(c, cell, order).rows, width, height),
        bare(carved_around(c, cell, order).rows),
        grown(c, carved_around(c, cell, order), cell),
        forall|i: int|
            0 <= i < order.len() && inside(c.rows, moved(cell, #[trigger] order[i])) ==> opened(
                carved_around(c, cell, order).rows,
                moved(cell, order[i]),
            ),
    decreases order.len(),
{
    if order.len() > 0 {
        let next = carved_toward(c, cell, order[0]);
        let rest = order.drop_first();
        let last = carved_around(next, cell, rest);
        lemma_carved_toward_grown(c, cell, order[0], width, height);
        lemma_carved_around_grown(next, cell, rest, width, height);
        lemma_grown_twice(c, next, last, cell);
        assert forall|i: int|
            0 <= i < order.len() && inside(c.rows, moved(cell, #[trigger] order[i])) implies opened(
            last.rows,
            moved(cell, order[i]),
        ) by {
            if i > 0 {
                assert(rest[i - 1] == order[i]);
            }
        }
    }
}

/// Taking the first cell from the queue and carving around it, with the
/// four leaps in any order, keeps what holds of a carving, and brings it
/// nearer its end: there are fewer walls, or as many and one cell less in
/// the queue.
pub proof fn lemma_carving_step(
    before: Seq<Seq<Cell>>,
    after: Seq<Seq<Cell>>,
    width: nat,
    height: nat,
    queue: Seq<(usize, usize)>,
    frontier: Seq<(usize, usize)>,
    start: (int, int),
    order: Seq<(i32, i32)>,
)
    requires
        carving_inv(before, width, height, queue, start),
        queue.len() > 0,
        rectangular(after, width, height),
        bare(after),
        forall|k: int| 0 <= k < 4 ==> order.contains(#[trigger] leap(k)),
        grown(
            Carving { rows: before, frontier: queue.subrange(1, queue.len() as int) },
            Carving { rows: after, frontier },
            cell_of(queue[0]),
        ),
        forall|i: int|
            0 <= i < order.len() && inside(before, moved(cell_of(queue[0]), #[trigger] order[i]))
                ==> opened(after, moved(cell_of(queue[0]), order[i])),
    ensures
        carving_inv(after, width, height, frontier, start),
        count_in_rows(after, Cell::Wall) < count_in_rows(before, Cell::Wall) || (count_in_rows(
            after,
            Cell::Wall,
        ) == count_in_rows(before, Cell::Wall) && frontier.len() < queue.len()),
{
    let head = cell_of(queue[0]);
    assert forall|cell: (int, int), k: int|
        on_lattice(after, cell) && #[trigger] opened(after, cell) && !waits(frontier, cell) && 0
            <= k < 4 && inside(after, moved(cell, #[trigger] leap(k))) implies opened(
        after,
        moved(cell, leap(k)),
    ) by {
        if cell == head {
            let i = choose|i: int| 0 <= i < order.len() && order[i] == leap(k);
        } else if opened(before, cell) {
            assert(!waits(queue, cell)) by {
                if waits(queue, cell) {
                    let i = choose|i: int|
                        0 <= i < queue.len() && cell_of(#[trigger] queue[i]) == cell;
                    assert(cell_of(frontier[i - 1]) == cell);
                }
            }
        }
    }
}

/// When the queue has run empty, every cell of the lattice is open: each
/// can be reached from the start by leaps over the lattice, and each open
/// cell of the lattice has opened the cells a leap away.
pub proof fn lemma_lattice_open(
    rows: Seq<Seq<Cell>>,
    width: nat,
    height: nat,
    start: (int, int),
    cell: (int, int),
)
    requires
        carving_inv(rows, width, height, Seq::<(usize, usize)>::empty(), start),
        on_lattice(rows, cell),
    ensures
        opened(rows, cell),
    decreases
            (if cell.0 > start.0 {
                cell.0 - start.0
            } else {
                start.0 - cell.0
            }) + (if cell.1 > start.1 {
                cell.1 - start.1
            } else {
                start.1 - cell.1
            }),
{
    if cell == start {
    } else if cell.0 > start.0 {
        let prev = (cell.0 - 2, cell.1);
        lemma_lattice_open(rows, width, height, start, prev);
        assert(moved(prev, leap(3)) == cell);
    } else if cell.0 < start.0 {
        let prev = (cell.0 + 2, cell.1);
        lemma_lattice_open(rows, width, height, start, prev);
        assert(moved(prev, leap(2)) == cell);
    } else if cell.1 > start.1 {
        let prev = (cell.0, cell.1 - 2);
        lemma_lattice_open(rows, width, height, start, prev);
        assert(moved(prev, leap(1)) == cell);
    } else {
        let prev = (cell.0, cell.1 + 2);
        lemma_lattice_open(rows, width, height, start, prev);
        assert(moved(prev, leap(0)) == cell);
    }
}

/// Every open cell of the lattice can be reached from `start` over cells
/// that are not walls.
pub open spec fn joined_up(grid: &Grid, start: (int, int)) -> bool {
    forall|cell: (int, int)|
        on_lattice(grid@, cell) && #[trigger] opened(grid@, cell) ==> reachable(grid, start, cell)
}

/// In a grid of its stated size, the cells that an actor may stand on are
/// the cells of its rows that are not walls.
pub proof fn lemma_passable_is_opened(grid: &Grid)
    requires
        grid.wf(),
    ensures
        forall|x: int, y: int| #[trigger] grid.passable(x, y) <==> opened(grid@, (x, y)),
{
}

/// Carving around the first cell of the queue keeps every open cell of the
/// lattice within reach of the start: the walks that were there are there
/// still, and a cell that was opened now lies two steps over open cells from
/// the cell that was carved around.
pub proof fn lemma_carving_keeps_joined(
    before: &Grid,
    after: &Grid,
    queue: Seq<(usize, usize)>,
    frontier: Seq<(usize, usize)>,
    start: (int, int),
)
    requires
        before.wf(),
        after.wf(),
        after.spec_width() == before.spec_width(),
        after.spec_height() == before.spec_height(),
        carving_inv(before@, before.spec_width(), before.spec_height(), queue, start),
        joined_up(before, start),
        queue.len() > 0,
        grown(
            Carving { rows: before@, frontier: queue.subrange(1, queue.len() as int) },
            Carving { rows: after@, frontier },
            cell_of(queue[0]),
        ),
    ensures
        joined_up(after, start),
{
    let head = cell_of(queue[0]);
    lemma_passable_is_opened(before);
    lemma_passable_is_opened(after);
    let far = choose|steps: nat| reaches_in(before, start, head, steps);
    lemma_walk_survives(before, after, start, head, far);
    assert forall|cell: (int, int)|
        on_lattice(after@, cell) && #[trigger] opened(after@, cell) implies reachable(
        after,
        start,
        cell,
    ) by {
        if opened(before@, cell) {
            let steps = choose|steps: nat| reaches_in(before, start, cell, steps);
            lemma_walk_survives(before, after, start, cell, steps);
        } else {
            let k = choose|k: int|
                0 <= k < 4 && cell == moved(head, #[trigger] leap(k)) && opened(
                    after@,
                    moved(head, half(leap(k))),
                );
            let mid = moved(head, half(leap(k)));
            lemma_walk_append(after, start, head, mid, far);
            lemma_walk_append(after, start, mid, cell, far + 1);
        }
    }
}

/// Opening walls keeps every cell of the lattice within reach of the start,
/// once all of them are open.
pub proof fn lemma_opening_keeps_joined(before: &Grid, after: &Grid, start: (int, int))
    requires
        before.wf(),
        after.wf(),
        after.spec_width() == before.spec_width(),
        after.spec_height() == before.spec_height(),
        forall|x: int, y: int|
            before.in_bounds(x, y) && #[trigger] before.at(x, y) != Cell::Wall ==> after.at(x, y)
                != Cell::Wall,
        forall|cell: (int, int)| #[trigger] on_lattice(before@, cell) ==> opened(before@, cell),
        joined_up(before, start),
    ensures
        joined_up(after, start),
{
    assert forall|cell: (int, int)|
        on_lattice(after@, cell) && #[trigger] opened(after@, cell) implies reachable(
        after,
        start,
        cell,
    ) by {
        assert(on_lattice(before@, cell));
        let steps = choose|steps: nat| reaches_in(before, start, cell, steps);
        lemma_walk_survives(before, after, start, cell, steps);
    }
}

/// Marks the cell at `(x, y)` as one that a proof looks at.
pub open spec fn probed(x: int, y: int) -> bool {
    true
}

/// Every open cell has even coordinates, or lies between two open cells
/// that have.
pub open spec fn tidy(rows: Seq<Seq<Cell>>) -> bool {
    forall|x: int, y: int|
        #[trigger] probed(x, y) && opened(rows, (x, y)) ==> {
            ||| x % 2 == 0 && y % 2 == 0
            ||| x % 2 != 0 && y % 2 == 0 && opened(rows, (x - 1, y)) && opened(rows, (x + 1, y))
            ||| x % 2 == 0 && y % 2 != 0 && opened(rows, (x, y - 1)) && opened(rows, (x, y + 1))
        }
}

/// The lattice as a table of its own: the entry at `(i, j)` says whether the
/// lattice cell at `(2 i + 2, 2 j + 2)` is open.
pub open spec fn lattice_table(rows: Seq<Seq<Cell>>, width: nat, height: nat) -> Seq<Seq<bool>> {
    Seq::new(
        ((height - 2) / 2) as nat,
        |j: int|
            Seq::new(((width - 2) / 2) as nat, |i: int| opened(rows, (2 * i + 2, 2 * j + 2))),
    )
}

/// How many cells of the lattice are open.
pub open spec fn lattice_opened(rows: Seq<Seq<Cell>>, width: nat, height: nat) -> nat {
    count_in_rows(lattice_table(rows, width, height), true)
}

/// How many cells joined the queue between `before` and `after`.
pub open spec fn gain(before: Carving, after: Carving) -> int {
    after.frontier.len() - before.frontier.len()
}

/// A leap from an open cell of the lattice that ends on a wall opens two
/// walls, its end and the cell between, and one cell of the lattice: the
/// cell between cannot be open while one of its ends is a wall.
pub proof fn lemma_carved_toward_counts(
    c: Carving,
    cell: (int, int),
    step: (i32, i32),
    width: nat,
    height: nat,
)
    requires
        rectangular(c.rows, width, height),
        tidy(c.rows),
        on_lattice(c.rows, cell),
        opened(c.rows, cell),
        is_leap(step),
    ensures
        rectangular(carved_toward(c, cell, step).rows, width, height),
        tidy(carved_toward(c, cell, step).rows),
        opened(carved_toward(c, cell, step).rows, cell),
        count_in_rows(carved_toward(c, cell, step).rows, Cell::Wall) + 2 * gain(
            c,
            carved_toward(c, cell, step),
        ) == count_in_rows(c.rows, Cell::Wall),
        lattice_opened(carved_toward(c, cell, step).rows, width, height) == lattice_opened(
            c.rows,
            width,
            height,
        ) + gain(c, carved_toward(c, cell, step)),
{
    let after = carved_toward(c, cell, step);
    let dest = moved(cell, step);
    let mid = moved(cell, half(step));
    if inside(c.rows, dest) && c.rows[dest.1][dest.0] == Cell::Wall {
        let first = with_entry(c.rows, dest.0, dest.1, Cell::Open);
        assert(probed(mid.0, mid.1));
        lemma_count_in_rows_update(c.rows, dest.0, dest.1, Cell::Open, Cell::Wall);
        lemma_count_in_rows_update(first, mid.0, mid.1, Cell::Open, Cell::Wall);
        let old_table = lattice_table(c.rows, width, height);
        let new_table = lattice_table(after.rows, width, height);
        let i = dest.0 / 2 - 1;
        let j = dest.1 / 2 - 1;
        assert(new_table =~~= with_entry(old_table, i, j, true));
        lemma_count_in_rows_update(old_table, i, j, true, true);
    }
}

/// The leaps of `order` from an open cell of the lattice open two walls and
/// one cell of the lattice for each cell that joins the queue.
pub proof fn lemma_carved_around_counts(
    c: Carving,
    cell: (int, int),
    order: Seq<(i32, i32)>,
    width: nat,
    height: nat,
)
    requires
        rectangular(c.rows, width, height),
        tidy(c.rows),
        on_lattice(c.rows, cell),
        opened(c.rows, cell),
        forall|i: int| 0 <= i < order.len() ==> is_leap(#[trigger] order[i]),
    ensures
        tidy(carved_around(c, cell, order).rows),
        count_in_rows(carved_around(c, cell, order).rows, Cell::Wall) + 2 * gain(
            c,
            carved_around(c, cell, order),
        ) == count_in_rows(c.rows, Cell::Wall),
        lattice_opened(carved_around(c, cell, order).rows, width, height) == lattice_opened(
            c.rows,
            width,
            height,
        ) + gain(c, carved_around(c, cell, order)),
    decreases order.len(),
{
    if order.len() > 0 {
        let next = carved_toward(c, cell, order[0]);
        let rest = order.drop_first();
        lemma_carved_toward_counts(c, cell, order[0], width, height);
        lemma_carved_around_counts(next, cell, rest, width, height);
    }
}

} // verus!
