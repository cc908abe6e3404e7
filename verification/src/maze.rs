//! Carving a maze out of a grid of walls.
//!
//! Passages are carved over the lattice of interior cells with even
//! coordinates: from a drawn start, the cells of a work queue open their
//! lattice neighbours two steps away, in a drawn order, together with the
//! cell between. Extra walls are then opened at drawn places, and every
//! open cell gets a pellet.

use crate::carving::{
    carving_inv, joined_up, lattice_opened, lattice_table, lemma_carved_around_counts,
    lemma_carved_around_grown, lemma_carving_keeps_joined, lemma_carving_step,
    lemma_lattice_open, lemma_opening_keeps_joined, lemma_rearranged_leaps, ringed, tidy,
};
use crate::grid::{lemma_counts_partition, Cell, Grid};
use crate::path::{
    cell_of, lemma_reachable_through, moved, neighbor, reachable, reaches_in,
};
use crate::random::{draw_between, shuffle_steps};
use crate::table::{
    count_in_rows, lemma_count_agrees, lemma_count_all, lemma_count_in_rows_update,
    lemma_count_none, rectangular, with_entry,
};
use rand::rngs::ThreadRng;
use std::collections::VecDeque;
use vstd::prelude::*;

verus! {

/// The four leaps of two cells along one axis, in the order in which they
/// are handed to the shuffle: up, down, left, right.
pub open spec fn leap(k: int) -> (i32, i32) {
    if k == 0 {
        (0i32, -2i32)
    } else if k == 1 {
        (0i32, 2i32)
    } else if k == 2 {
        (-2i32, 0i32)
    } else {
        (2i32, 0i32)
    }
}

/// `step` is one of the four leaps.
pub open spec fn is_leap(step: (i32, i32)) -> bool {
    step == leap(0) || step == leap(1) || step == leap(2) || step == leap(3)
}

/// The four leaps.
pub open spec fn leaps() -> Seq<(i32, i32)> {
    seq![leap(0), leap(1), leap(2), leap(3)]
}

/// The unit step in the direction of a leap.
pub open spec fn half(step: (i32, i32)) -> (i32, i32) {
    ((step.0 / 2) as i32, (step.1 / 2) as i32)
}

/// `cell` lies inside the outer ring of `rows`.
pub open spec fn inside(rows: Seq<Seq<Cell>>, cell: (int, int)) -> bool {
    1 <= cell.1 < rows.len() - 1 && 1 <= cell.0 < rows[cell.1].len() - 1
}

/// `cell` lies inside the outer ring of `rows` and both its coordinates are
/// even.
pub open spec fn on_lattice(rows: Seq<Seq<Cell>>, cell: (int, int)) -> bool {
    inside(rows, cell) && cell.0 % 2 == 0 && cell.1 % 2 == 0
}

/// `cell` is a cell of `rows` that is not a wall.
pub open spec fn opened(rows: Seq<Seq<Cell>>, cell: (int, int)) -> bool {
    &&& 0 <= cell.1 < rows.len()
    &&& 0 <= cell.0 < rows[cell.1].len()
    &&& rows[cell.1][cell.0] != Cell::Wall
}

/// A maze while it is carved: its cells, and the work queue of cells whose
/// lattice neighbours are still to be opened.
pub struct Carving {
    pub rows: Seq<Seq<Cell>>,
    pub frontier: Seq<(usize, usize)>,
}

/// What one leap from `cell` does: where it ends inside the outer ring on a
/// wall, that wall and the cell between are opened and the end joins the
/// queue. Else nothing changes.
pub open spec fn carved_toward(c: Carving, cell: (int, int), step: (i32, i32)) -> Carving {
    let dest = moved(cell, step);
    let mid = moved(cell, half(step));
    if inside(c.rows, dest) && c.rows[dest.1][dest.0] == Cell::Wall {
        Carving {
            rows: with_entry(
                with_entry(c.rows, dest.0, dest.1, Cell::Open),
                mid.0,
                mid.1,
                Cell::Open,
            ),
            frontier: c.frontier.push((dest.0 as usize, dest.1 as usize)),
        }
    } else {
        c
    }
}

/// What the leaps of `order` from `cell` do, one after the other.
pub open spec fn carved_around(c: Carving, cell: (int, int), order: Seq<(i32, i32)>) -> Carving
    decreases order.len(),
{
    if order.len() == 0 {
        c
    } else {
        carved_around(carved_toward(c, cell, order[0]), cell, order.drop_first())
    }
}

/// `rows` with the cell at `(x, y)` opened if it was a wall.
pub open spec fn with_opening(rows: Seq<Seq<Cell>>, x: int, y: int) -> Seq<Seq<Cell>> {
    if rows[y][x] == Cell::Wall {
        with_entry(rows, x, y, Cell::Open)
    } else {
        rows
    }
}

/// `rows` with a pellet on every cell inside the outer ring that is not a
/// wall.
pub open spec fn seeded(rows: Seq<Seq<Cell>>) -> Seq<Seq<Cell>> {
    Seq::new(
        rows.len(),
        |y: int|
            Seq::new(
                rows[y].len(),
                |x: int|
                    if inside(rows, (x, y)) && rows[y][x] != Cell::Wall {
                        Cell::Pellet
                    } else {
                        rows[y][x]
                    },
            ),
    )
}

/// How many walls are opened at drawn places, beyond those that carving
/// opens: the given share, in percent, of the number of cells, rounded to
/// the nearest whole number, a half upwards.
pub open spec fn extra_openings(width: nat, height: nat, density_percent: nat) -> nat {
    (width * height * density_percent + 50) / 100
}

/// How many cells the lattice of a grid of `width` by `height` cells has.
pub open spec fn lattice_size(width: nat, height: nat) -> nat {
    (((width - 2) / 2) * ((height - 2) / 2)) as nat
}

/// What holds of every maze that `generate` returns, whatever was drawn:
/// the outer ring is all wall, no cell is open without a pellet, every cell
/// of the lattice holds a pellet, and every cell of the lattice can be
/// reached from every other over cells that are not walls.
pub open spec fn is_fresh_maze(grid: &Grid) -> bool {
    &&& grid.wf()
    &&& grid.walled_in()
    &&& forall|x: int, y: int| grid.in_bounds(x, y) ==> #[trigger] grid.at(x, y) != Cell::Open
    &&& forall|x: int, y: int|
        on_lattice(grid@, (x, y)) ==> #[trigger] grid.at(x, y) == Cell::Pellet
    &&& forall|from: (int, int), to: (int, int)|
        #[trigger] on_lattice(grid@, from) && #[trigger] on_lattice(grid@, to) ==> reachable(
            grid,
            from,
            to,
        )
}

/// The four leaps, in the order in which they are handed to the shuffle.
pub fn all_leaps() -> (steps: Vec<(i32, i32)>)
    ensures
        steps@ == leaps(),
{
    let mut steps: Vec<(i32, i32)> = Vec::new();
    steps.push((0, -2));
    steps.push((0, 2));
    steps.push((-2, 0));
    steps.push((2, 0));
    steps
}

/// The unit step in the direction of a leap.
pub fn half_leap(step: (i32, i32)) -> (unit: (i32, i32))
    requires
        is_leap(step),
    ensures
        unit == half(step),
{
    if step.0 == 2 {
        (1, 0)
    } else if step.0 == -2 {
        (-1, 0)
    } else if step.1 == 2 {
        (0, 1)
    } else {
        (0, -1)
    }
}

/// How many walls are opened at drawn places: the given share, in percent,
/// of the number of cells, rounded to the nearest whole number.
pub fn count_extra_openings(width: usize, height: usize, density_percent: u32) -> (count: u128)
    requires
        width * height <= usize::MAX,
    ensures
        count == extra_openings(width as nat, height as nat, density_percent as nat),
{
    let cells: u128 = (width as u128) * (height as u128);
    assert(cells * density_percent <= 0x1_0000_0000_0000_0000 * 0x1_0000_0000) by (nonlinear_arith)
        requires
            cells <= 0xffff_ffff_ffff_ffff,
            density_percent <= 0xffff_ffff,
    ;
    (cells * (density_percent as u128) + 50) / 100
}

/// Takes one leap from `cell`: where it ends inside the outer ring on a
/// wall, opens that wall and the cell between, and puts the end in the
/// queue.
pub fn carve_toward(
    grid: &mut Grid,
    frontier: &mut VecDeque<(usize, usize)>,
    cell: (usize, usize),
    step: (i32, i32),
)
    requires
        old(grid).wf(),
        old(grid).in_bounds(cell.0 as int, cell.1 as int),
        is_leap(step),
    ensures
        final(grid).wf(),
        final(grid).spec_width() == old(grid).spec_width(),
        final(grid).spec_height() == old(grid).spec_height(),
        (Carving { rows: final(grid)@, frontier: final(frontier)@ }) == carved_toward(
            Carving { rows: old(grid)@, frontier: old(frontier)@ },
            cell_of(cell),
            step,
        ),
{
    let width = grid.width();
    let height = grid.height();
    match neighbor(grid, cell, step) {
        Some(dest) => {
            if 1 <= dest.0 && dest.0 < width - 1 && 1 <= dest.1 && dest.1 < height - 1 && grid.get(
                dest.0,
                dest.1,
            ) == Cell::Wall {
                match neighbor(grid, cell, half_leap(step)) {
                    Some(mid) => {
                        grid.set(dest.0, dest.1, Cell::Open);
                        grid.set(mid.0, mid.1, Cell::Open);
                        frontier.push_back(dest);
                    },
                    None => {},
                }
            }
        },
        None => {},
    }
}

/// Takes the leaps of `order` from `cell`, one after the other.
pub fn carve_around(
    grid: &mut Grid,
    frontier: &mut VecDeque<(usize, usize)>,
    cell: (usize, usize),
    order: &Vec<(i32, i32)>,
)
    requires
        old(grid).wf(),
        old(grid).in_bounds(cell.0 as int, cell.1 as int),
        forall|i: int| 0 <= i < order@.len() ==> is_leap(#[trigger] order@[i]),
    ensures
        final(grid).wf(),
        final(grid).spec_width() == old(grid).spec_width(),
        final(grid).spec_height() == old(grid).spec_height(),
        (Carving { rows: final(grid)@, frontier: final(frontier)@ }) == carved_around(
            Carving { rows: old(grid)@, frontier: old(frontier)@ },
            cell_of(cell),
            order@,
        ),
{
    let ghost whole = carved_around(
        Carving { rows: grid@, frontier: frontier@ },
        cell_of(cell),
        order@,
    );
    let mut i: usize = 0;
    assert(order@.subrange(0, order@.len() as int) =~= order@);
    while i < order.len()
        invariant
            grid.wf(),
            grid.spec_width() == old(grid).spec_width(),
            grid.spec_height() == old(grid).spec_height(),
            grid.in_bounds(cell.0 as int, cell.1 as int),
            forall|j: int| 0 <= j < order@.len() ==> is_leap(#[trigger] order@[j]),
            i <= order.len(),
            whole == carved_around(
                Carving { rows: grid@, frontier: frontier@ },
                cell_of(cell),
                order@.subrange(i as int, order@.len() as int),
            ),
        decreases order.len() - i,
    {
        let ghost rest = order@.subrange(i as int, order@.len() as int);
        proof {
            assert(rest.drop_first() =~= order@.subrange(i + 1, order@.len() as int));
        }
        carve_toward(grid, frontier, cell, order[i]);
        i += 1;
    }
}

/// Opens the cell at `(x, y)` if it is a wall.
pub fn open_wall(grid: &mut Grid, x: usize, y: usize)
    requires
        old(grid).wf(),
        old(grid).in_bounds(x as int, y as int),
    ensures
        final(grid).wf(),
        final(grid).spec_width() == old(grid).spec_width(),
        final(grid).spec_height() == old(grid).spec_height(),
        final(grid)@ == with_opening(old(grid)@, x as int, y as int),
{
    if grid.get(x, y) == Cell::Wall {
        grid.set(x, y, Cell::Open);
    }
}

/// Puts a pellet on every cell inside the outer ring that is not a wall.
pub fn seed_pellets(grid: &mut Grid)
    requires
        old(grid).wf(),
    ensures
        final(grid).wf(),
        final(grid).spec_width() == old(grid).spec_width(),
        final(grid).spec_height() == old(grid).spec_height(),
        final(grid)@ == seeded(old(grid)@),
{
    let ghost before = grid@;
    let width = grid.width();
    let height = grid.height();
    if width < 3 || height < 3 {
        assert(grid@ =~~= seeded(before));
        return ;
    }
    let mut y: usize = 1;
    while y < height - 1
        invariant
            grid.wf(),
            width == grid.spec_width(),
            height == grid.spec_height(),
            width >= 3,
            height >= 3,
            grid.spec_width() == old(grid).spec_width(),
            grid.spec_height() == old(grid).spec_height(),
            rectangular(before, width as nat, height as nat),
            1 <= y <= height - 1,
            forall|i: int, j: int|
                0 <= j < height && 0 <= i < width ==> #[trigger] grid@[j][i] == (if j < y {
                    seeded(before)[j][i]
                } else {
                    before[j][i]
                }),
        decreases height - y,
    {
        let mut x: usize = 1;
        while x < width - 1
            invariant
                grid.wf(),
                width == grid.spec_width(),
                height == grid.spec_height(),
                width >= 3,
                height >= 3,
                grid.spec_width() == old(grid).spec_width(),
                grid.spec_height() == old(grid).spec_height(),
                rectangular(before, width as nat, height as nat),
                1 <= y < height - 1,
                1 <= x <= width - 1,
                forall|i: int, j: int|
                    0 <= j < height && 0 <= i < width ==> #[trigger] grid@[j][i] == (if j < y || (j
                        == y && i < x) {
                        seeded(before)[j][i]
                    } else {
                        before[j][i]
                    }),
            decreases width - x,
        {
            if grid.get(x, y) != Cell::Wall {
                grid.set(x, y, Cell::Pellet);
            }
            x += 1;
        }
        y += 1;
    }
    assert(grid@ =~~= seeded(before));
}

/// Carves a maze of `width` by `height` cells.
///
/// All cells start as walls. A cell of the lattice is drawn and opened, and
/// passages are carved from it over the whole lattice, in an order that is
/// drawn. Then `extra_openings` times a cell inside the outer ring is drawn
/// and opened if it is a wall. At last every cell that is not a wall gets a
/// pellet.
///
/// Carving opens every cell of the lattice and, for each but the first, one
/// cell that joins it to the rest: twice the size of the lattice less one.
/// Each of the extra draws opens one more cell or none.
pub fn generate(width: usize, height: usize, density_percent: u32, rng: &mut ThreadRng) -> (maze:
    Grid)
    requires
        width >= 4,
        height >= 4,
        width * height <= usize::MAX,
    ensures
        maze.spec_width() == width,
        maze.spec_height() == height,
        is_fresh_maze(&maze),
        maze.spec_count(Cell::Pellet) >= 2 * lattice_size(width as nat, height as nat) - 1,
        maze.spec_count(Cell::Pellet) <= 2 * lattice_size(width as nat, height as nat) - 1
            + extra_openings(width as nat, height as nat, density_percent as nat),
{
    let ghost cells = width * height;
    let ghost size = lattice_size(width as nat, height as nat);
    let mut grid = Grid::filled(width, height, Cell::Wall);
    let ghost blank = grid@;
    proof {
        assert forall|x: int, y: int|
            0 <= y < blank.len() && 0 <= x < blank[y].len() implies #[trigger] blank[y][x]
            == Cell::Wall by {
            assert(grid.at(x, y) == Cell::Wall);
        }
    }
    let start_x = draw_between(rng, 1, width / 2) * 2;
    let start_y = draw_between(rng, 1, height / 2) * 2;
    grid.set(start_x, start_y, Cell::Open);
    let mut frontier: VecDeque<(usize, usize)> = VecDeque::new();
    frontier.push_back((start_x, start_y));
    let ghost start = (start_x as int, start_y as int);
    proof {
        assert(cell_of(frontier@[0]) == start);
        assert(joined_up(&grid, start)) by {
            assert(reaches_in(&grid, start, start, 0));
        }
        lemma_count_all(blank, width as nat, height as nat, Cell::Wall);
        lemma_count_in_rows_update(blank, start.0, start.1, Cell::Open, Cell::Wall);
        let none = lattice_table(blank, width as nat, height as nat);
        let one = lattice_table(grid@, width as nat, height as nat);
        lemma_count_none(none, true);
        assert(one =~~= with_entry(none, start.0 / 2 - 1, start.1 / 2 - 1, true));
        lemma_count_in_rows_update(none, start.0 / 2 - 1, start.1 / 2 - 1, true, true);
    }
    while frontier.len() > 0
        invariant
            grid.wf(),
            grid.spec_width() == width,
            grid.spec_height() == height,
            carving_inv(grid@, width as nat, height as nat, frontier@, start),
            joined_up(&grid, start),
            tidy(grid@),
            cells == width * height,
            count_in_rows(grid@, Cell::Wall) + 2 * lattice_opened(
                grid@,
                width as nat,
                height as nat,
            ) == cells + 1,
        decreases count_in_rows(grid@, Cell::Wall), frontier@.len(),
    {
        let ghost uncarved = grid;
        let ghost before = grid@;
        let ghost queue = frontier@;
        let head = frontier.pop_front();
        let cell = match head {
            Some(cell) => cell,
            None => (start_x, start_y),
        };
        let mut order = all_leaps();
        shuffle_steps(rng, &mut order);
        proof {
            lemma_rearranged_leaps(order@);
        }
        let ghost popped = Carving { rows: grid@, frontier: frontier@ };
        carve_around(&mut grid, &mut frontier, cell, &order);
        proof {
            lemma_carved_around_grown(popped, cell_of(cell), order@, width as nat, height as nat);
            lemma_carving_step(
                before,
                grid@,
                width as nat,
                height as nat,
                queue,
                frontier@,
                start,
                order@,
            );
            lemma_carving_keeps_joined(&uncarved, &grid, queue, frontier@, start);
            lemma_carved_around_counts(popped, cell_of(cell), order@, width as nat, height as nat);
        }
    }
    let count = count_extra_openings(width, height, density_percent);
    proof {
        assert forall|x: int, y: int| #[trigger] on_lattice(grid@, (x, y)) implies opened(
            grid@,
            (x, y),
        ) by {
            lemma_lattice_open(grid@, width as nat, height as nat, start, (x, y));
        }
        let all = lattice_table(grid@, width as nat, height as nat);
        assert forall|a: int, b: int|
            0 <= b < (height - 2) / 2 && 0 <= a < (width - 2) / 2 implies (#[trigger] all[b][a])
            == true by {
            assert(on_lattice(grid@, (2 * a + 2, 2 * b + 2)));
        }
        lemma_count_all(all, ((width - 2) / 2) as nat, ((height - 2) / 2) as nat, true);
    }
    let mut done: u128 = 0;
    while done < count
        invariant
            grid.wf(),
            ringed(grid@),
            grid.spec_width() == width,
            grid.spec_height() == height,
            width >= 4,
            height >= 4,
            on_lattice(grid@, start),
            joined_up(&grid, start),
            forall|x: int, y: int| #[trigger] on_lattice(grid@, (x, y)) ==> opened(grid@, (x, y)),
            done <= count,
            cells == width * height,
            size == lattice_size(width as nat, height as nat),
            count_in_rows(grid@, Cell::Wall) + 2 * size <= cells + 1,
            count_in_rows(grid@, Cell::Wall) + 2 * size + done >= cells + 1,
        decreases count - done,
    {
        let x = draw_between(rng, 1, width - 1);
        let y = draw_between(rng, 1, height - 1);
        let ghost closed = grid;
        let ghost before = grid@;
        open_wall(&mut grid, x, y);
        proof {
            lemma_opening_keeps_joined(&closed, &grid, start);
            assert forall|i: int, j: int| #[trigger] on_lattice(grid@, (i, j)) implies opened(
                grid@,
                (i, j),
            ) by {
                assert(on_lattice(before, (i, j)));
            }
            if before[y as int][x as int] == Cell::Wall {
                lemma_count_in_rows_update(before, x as int, y as int, Cell::Open, Cell::Wall);
            }
        }
        done += 1;
    }
    let ghost unseeded = grid;
    let ghost before = grid@;
    seed_pellets(&mut grid);
    proof {
        lemma_opening_keeps_joined(&unseeded, &grid, start);
        assert forall|i: int, j: int| on_lattice(grid@, (i, j)) implies #[trigger] grid.at(i, j)
            == Cell::Pellet by {
            assert(on_lattice(before, (i, j)));
        }
        assert forall|from: (int, int), to: (int, int)|
            #[trigger] on_lattice(grid@, from) && #[trigger] on_lattice(
                grid@,
                to,
            ) implies reachable(&grid, from, to) by {
            assert(on_lattice(before, from) && on_lattice(before, to));
            assert(opened(grid@, start) && opened(grid@, from) && opened(grid@, to));
            lemma_reachable_through(&grid, start, from, to);
        }
        lemma_count_agrees(before, grid@, Cell::Wall);
        lemma_count_none(grid@, Cell::Open);
        lemma_counts_partition(grid);
    }
    grid
}

} // verus!
