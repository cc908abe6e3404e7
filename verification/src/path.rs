//! Walks through the maze: what it means for one cell to be reachable from
//! another in a number of moves, and how far apart two cells are.

use crate::grid::Grid;
use vstd::prelude::*;

verus! {

/// The four unit steps in the order in which the search tries them: up,
/// down, left, right. `y` grows downwards.
pub open spec fn unit_step(k: int) -> (i32, i32) {
    if k == 0 {
        (0i32, -1i32)
    } else if k == 1 {
        (0i32, 1i32)
    } else if k == 2 {
        (-1i32, 0i32)
    } else {
        (1i32, 0i32)
    }
}

/// `step` is one of the four unit steps.
pub open spec fn is_unit_step(step: (i32, i32)) -> bool {
    step == unit_step(0) || step == unit_step(1) || step == unit_step(2) || step == unit_step(3)
}

/// The cell that `step` leads to from `cell`.
pub open spec fn moved(cell: (int, int), step: (i32, i32)) -> (int, int) {
    (cell.0 + step.0, cell.1 + step.1)
}

/// A cell held in machine integers, as a cell of the model.
pub open spec fn cell_of(cell: (usize, usize)) -> (int, int) {
    (cell.0 as int, cell.1 as int)
}

/// `b` is one unit step away from `a`.
pub open spec fn adjacent(a: (int, int), b: (int, int)) -> bool {
    b == moved(a, unit_step(0)) || b == moved(a, unit_step(1)) || b == moved(a, unit_step(2)) || b
        == moved(a, unit_step(3))
}

/// A walk of exactly `steps` unit steps leads from `from` to `to`, and every
/// cell it enters is a cell of the grid that is not a wall. The cell it
/// starts from may be anything.
pub open spec fn reaches_in(grid: &Grid, from: (int, int), to: (int, int), steps: nat) -> bool
    decreases steps,
{
    if steps == 0 {
        from == to
    } else {
        grid.passable(to.0, to.1) && exists|mid: (int, int)|
            #[trigger] adjacent(mid, to) && reaches_in(grid, from, mid, (steps - 1) as nat)
    }
}

/// Some walk leads from `from` to `to`.
pub open spec fn reachable(grid: &Grid, from: (int, int), to: (int, int)) -> bool {
    exists|steps: nat| reaches_in(grid, from, to, steps)
}

/// The shortest walk from `from` to `to` has `steps` steps.
pub open spec fn distance_is(grid: &Grid, from: (int, int), to: (int, int), steps: nat) -> bool {
    &&& reaches_in(grid, from, to, steps)
    &&& forall|fewer: nat| fewer < steps ==> !reaches_in(grid, from, to, fewer)
}

/// Taking `step` from `from` enters a cell that is not a wall, from which
/// `to` is `steps` further steps away.
pub open spec fn leads(
    grid: &Grid,
    from: (int, int),
    step: (i32, i32),
    to: (int, int),
    steps: nat,
) -> bool {
    let next = moved(from, step);
    grid.passable(next.0, next.1) && reaches_in(grid, next, to, steps)
}

/// The distance from `from` to `to`, where one can be reached from the
/// other.
pub open spec fn distance(grid: &Grid, from: (int, int), to: (int, int)) -> nat {
    choose|steps: nat| distance_is(grid, from, to, steps)
}

/// The first of the four unit steps, in search order, that leads from
/// `from` to within `steps` steps of `to`; the last of them if none does.
pub open spec fn first_leading_step(
    grid: &Grid,
    from: (int, int),
    to: (int, int),
    steps: nat,
) -> (i32, i32) {
    if leads(grid, from, unit_step(0), to, steps) {
        unit_step(0)
    } else if leads(grid, from, unit_step(1), to, steps) {
        unit_step(1)
    } else if leads(grid, from, unit_step(2), to, steps) {
        unit_step(2)
    } else {
        unit_step(3)
    }
}

/// The step to take from `from` towards `to`: none where `to` is where one
/// stands or out of reach, else the first unit step, in search order, with
/// which a shortest walk to `to` begins.
pub open spec fn best_first_step(grid: &Grid, from: (int, int), to: (int, int)) -> Option<
    (i32, i32),
> {
    if from == to || !reachable(grid, from, to) {
        None
    } else {
        Some(first_leading_step(grid, from, to, (distance(grid, from, to) - 1) as nat))
    }
}

/// A walk can be extended at its end by one step onto a cell that is not a
/// wall.
pub proof fn lemma_walk_append(
    grid: &Grid,
    from: (int, int),
    mid: (int, int),
    to: (int, int),
    steps: nat,
)
    requires
        reaches_in(grid, from, mid, steps),
        adjacent(mid, to),
        grid.passable(to.0, to.1),
    ensures
        reaches_in(grid, from, to, steps + 1),
{
}

/// A walk can be extended at its start: who stands one step from the first
/// cell of a walk, and may enter it, reaches the end in one step more.
pub proof fn lemma_walk_prepend(
    grid: &Grid,
    from: (int, int),
    next: (int, int),
    to: (int, int),
    steps: nat,
)
    requires
        adjacent(from, next),
        grid.passable(next.0, next.1),
        reaches_in(grid, next, to, steps),
    ensures
        reaches_in(grid, from, to, steps + 1),
    decreases steps,
{
    if steps == 0 {
        lemma_walk_append(grid, from, from, to, 0);
    } else {
        let mid = choose|mid: (int, int)|
            #[trigger] adjacent(mid, to) && reaches_in(grid, next, mid, (steps - 1) as nat);
        lemma_walk_prepend(grid, from, next, mid, (steps - 1) as nat);
        lemma_walk_append(grid, from, mid, to, steps);
    }
}

/// The first step of a walk of at least one step enters a cell next to the
/// start, and the rest of the walk leads on from there.
pub proof fn lemma_walk_first_step(grid: &Grid, from: (int, int), to: (int, int), steps: nat)
    requires
        steps >= 1,
        reaches_in(grid, from, to, steps),
    ensures
        exists|k: int| 0 <= k < 4 && #[trigger] leads(grid, from, unit_step(k), to, (steps - 1) as nat),
    decreases steps,
{
    let mid = choose|mid: (int, int)|
        #[trigger] adjacent(mid, to) && reaches_in(grid, from, mid, (steps - 1) as nat);
    if steps == 1 {
        let k = if to == moved(from, unit_step(0)) {
            0int
        } else if to == moved(from, unit_step(1)) {
            1int
        } else if to == moved(from, unit_step(2)) {
            2int
        } else {
            3int
        };
        assert(leads(grid, from, unit_step(k), to, 0));
    } else {
        lemma_walk_first_step(grid, from, mid, (steps - 1) as nat);
        let k = choose|k: int|
            0 <= k < 4 && #[trigger] leads(grid, from, unit_step(k), mid, (steps - 2) as nat);
        lemma_walk_append(grid, moved(from, unit_step(k)), mid, to, (steps - 2) as nat);
        assert(leads(grid, from, unit_step(k), to, (steps - 1) as nat));
    }
}

/// Two cells have at most one distance.
pub proof fn lemma_distance_unique(
    grid: &Grid,
    from: (int, int),
    to: (int, int),
    a: nat,
    b: nat,
)
    requires
        distance_is(grid, from, to, a),
        distance_is(grid, from, to, b),
    ensures
        a == b,
{
}

/// The unit step with index `k` in search order.
pub fn step_at(k: usize) -> (step: (i32, i32))
    requires
        k < 4,
    ensures
        step == unit_step(k as int),
{
    if k == 0 {
        (0, -1)
    } else if k == 1 {
        (0, 1)
    } else if k == 2 {
        (-1, 0)
    } else {
        (1, 0)
    }
}

/// The cell that `step` leads to from `cell`, if that is a cell of the grid.
pub fn neighbor(grid: &Grid, cell: (usize, usize), step: (i32, i32)) -> (next: Option<
    (usize, usize),
>)
    ensures
        match next {
            Some(n) => cell_of(n) == moved(cell_of(cell), step) && grid.in_bounds(
                n.0 as int,
                n.1 as int,
            ),
            None => !grid.in_bounds(moved(cell_of(cell), step).0, moved(cell_of(cell), step).1),
        },
{
    let x: i128 = cell.0 as i128 + step.0 as i128;
    let y: i128 = cell.1 as i128 + step.1 as i128;
    if 0 <= x && x < grid.width() as i128 && 0 <= y && y < grid.height() as i128 {
        Some((x as usize, y as usize))
    } else {
        None
    }
}

/// The unit step that leads from `from` to the cell `to` next to it.
pub fn step_between(from: (usize, usize), to: (usize, usize)) -> (step: (i32, i32))
    requires
        adjacent(cell_of(from), cell_of(to)),
    ensures
        is_unit_step(step),
        cell_of(to) == moved(cell_of(from), step),
{
    if to.1 < from.1 {
        (0, -1)
    } else if to.1 > from.1 {
        (0, 1)
    } else if to.0 < from.0 {
        (-1, 0)
    } else {
        (1, 0)
    }
}

/// The distance of two cells is the one number of steps that is a distance
/// of theirs.
pub proof fn lemma_distance(grid: &Grid, from: (int, int), to: (int, int), steps: nat)
    requires
        distance_is(grid, from, to, steps),
    ensures
        distance(grid, from, to) == steps,
        reachable(grid, from, to),
{
    lemma_distance_unique(grid, from, to, distance(grid, from, to), steps);
}

/// Where a walk of `steps` steps leads from `from` to `to`, the two cells
/// have a distance, and it is no more than `steps`.
pub proof fn lemma_distance_exists(grid: &Grid, from: (int, int), to: (int, int), steps: nat)
    requires
        reaches_in(grid, from, to, steps),
    ensures
        exists|least: nat| least <= steps && #[trigger] distance_is(grid, from, to, least),
    decreases steps,
{
    if forall|fewer: nat| fewer < steps ==> !reaches_in(grid, from, to, fewer) {
        assert(distance_is(grid, from, to, steps));
    } else {
        let fewer = choose|fewer: nat| fewer < steps && reaches_in(grid, from, to, fewer);
        lemma_distance_exists(grid, from, to, fewer);
    }
}

/// The step that `best_first_step` names is a unit step onto a cell that is
/// not a wall, and it is the first, in search order, from whose end `to` is
/// one step nearer than from `from`.
pub proof fn lemma_best_first_step_leads(grid: &Grid, from: (int, int), to: (int, int))
    ensures
        match best_first_step(grid, from, to) {
            Some(step) => {
                let far = distance(grid, from, to);
                &&& from != to
                &&& far >= 1
                &&& distance_is(grid, from, to, far)
                &&& is_unit_step(step)
                &&& leads(grid, from, step, to, (far - 1) as nat)
            },
            None => from == to || !reachable(grid, from, to),
        },
{
    if from != to && reachable(grid, from, to) {
        let steps = choose|steps: nat| reaches_in(grid, from, to, steps);
        lemma_distance_exists(grid, from, to, steps);
        let far = distance(grid, from, to);
        lemma_walk_first_step(grid, from, to, far);
    }
}

/// From a cell with a wall, or the edge of the grid, on each of its four
/// sides, no other cell can be reached, and there is no step to take.
pub proof fn lemma_enclosed_has_no_step(grid: &Grid, from: (int, int), to: (int, int))
    requires
        forall|k: int|
            0 <= k < 4 ==> !grid.passable(
                moved(from, #[trigger] unit_step(k)).0,
                moved(from, unit_step(k)).1,
            ),
    ensures
        best_first_step(grid, from, to) is None,
{
    lemma_best_first_step_leads(grid, from, to);
}

/// Adjacent cells are one of the four unit steps apart.
pub proof fn lemma_adjacent_is_step(a: (int, int), b: (int, int))
    requires
        adjacent(a, b),
    ensures
        exists|k: int| 0 <= k < 4 && b == moved(a, #[trigger] unit_step(k)),
        adjacent(b, a),
{
    if b == moved(a, unit_step(0)) {
    } else if b == moved(a, unit_step(1)) {
    } else if b == moved(a, unit_step(2)) {
    }
}

/// A walk that starts on a cell that is not a wall ends on one.
pub proof fn lemma_walk_ends_on_floor(grid: &Grid, from: (int, int), to: (int, int), steps: nat)
    requires
        grid.passable(from.0, from.1),
        reaches_in(grid, from, to, steps),
    ensures
        grid.passable(to.0, to.1),
{
}

/// Two walks, the second from where the first ends, make one walk.
pub proof fn lemma_walk_concat(
    grid: &Grid,
    from: (int, int),
    mid: (int, int),
    to: (int, int),
    first: nat,
    second: nat,
)
    requires
        reaches_in(grid, from, mid, first),
        reaches_in(grid, mid, to, second),
    ensures
        reaches_in(grid, from, to, first + second),
    decreases second,
{
    if second > 0 {
        let last = choose|last: (int, int)| #[trigger]
            adjacent(last, to) && reaches_in(grid, mid, last, (second - 1) as nat);
        lemma_walk_concat(grid, from, mid, last, first, (second - 1) as nat);
        lemma_walk_append(grid, from, last, to, (first + second - 1) as nat);
    }
}

/// A walk that starts on a cell that is not a wall can be walked back.
pub proof fn lemma_walk_reverse(grid: &Grid, from: (int, int), to: (int, int), steps: nat)
    requires
        grid.passable(from.0, from.1),
        reaches_in(grid, from, to, steps),
    ensures
        reaches_in(grid, to, from, steps),
    decreases steps,
{
    if steps > 0 {
        let last = choose|last: (int, int)| #[trigger]
            adjacent(last, to) && reaches_in(grid, from, last, (steps - 1) as nat);
        lemma_walk_reverse(grid, from, last, (steps - 1) as nat);
        lemma_walk_ends_on_floor(grid, from, last, (steps - 1) as nat);
        lemma_adjacent_is_step(last, to);
        lemma_walk_prepend(grid, to, last, from, (steps - 1) as nat);
    }
}

/// Opening walls breaks no walk: a walk through one grid is a walk through
/// any grid of the same size in which all its floor is floor still.
pub proof fn lemma_walk_survives(
    before: &Grid,
    after: &Grid,
    from: (int, int),
    to: (int, int),
    steps: nat,
)
    requires
        forall|x: int, y: int| #[trigger] before.passable(x, y) ==> after.passable(x, y),
        reaches_in(before, from, to, steps),
    ensures
        reaches_in(after, from, to, steps),
    decreases steps,
{
    if steps > 0 {
        let last = choose|last: (int, int)| #[trigger]
            adjacent(last, to) && reaches_in(before, from, last, (steps - 1) as nat);
        lemma_walk_survives(before, after, from, last, (steps - 1) as nat);
    }
}

/// On floor, reach goes both ways and carries on: who can reach a cell from
/// a cell that is not a wall can be reached from it, and who can reach a
/// second cell from the first can reach what the second can.
pub proof fn lemma_reachable_through(
    grid: &Grid,
    hub: (int, int),
    from: (int, int),
    to: (int, int),
)
    requires
        grid.passable(hub.0, hub.1),
        reachable(grid, hub, from),
        reachable(grid, hub, to),
    ensures
        reachable(grid, from, to),
{
    let out = choose|steps: nat| reaches_in(grid, hub, from, steps);
    let on = choose|steps: nat| reaches_in(grid, hub, to, steps);
    lemma_walk_reverse(grid, hub, from, out);
    lemma_walk_concat(grid, from, hub, to, out, on);
}

} // verus!
