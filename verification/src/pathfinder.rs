//! Breadth-first search through the maze, and the first step of a shortest
//! walk that it finds.

use crate::grid::{Cell, Grid};
use crate::path::{
    best_first_step, cell_of, distance, is_unit_step, lemma_best_first_step_leads,
    lemma_distance, lemma_walk_prepend, moved, neighbor, reachable, reaches_in, step_at,
    step_between,
};
use crate::search::{
    initial, lemma_exhausted, lemma_finished, lemma_initial, lemma_level_is_distance,
    lemma_popped, lemma_skipped, lemma_visited, Search,
};
use crate::table::{count_in_rows, lemma_count_in_rows_update, Table};
use std::collections::VecDeque;
use vstd::prelude::*;

verus! {

/// Searches the grid breadth first from `source`, looking at the neighbours
/// of each cell in the order up, down, left, right, until `target` is taken
/// from the queue or the queue runs empty. Returns whether `target` was
/// found, the parent of each cell that was reached, and what the proof knows
/// of them.
fn explore(grid: &Grid, source: (usize, usize), target: (usize, usize)) -> (out: (
    bool,
    Table<Option<(usize, usize)>>,
    Ghost<Search>,
))
    requires
        grid.wf(),
        grid.in_bounds(source.0 as int, source.1 as int),
        grid.in_bounds(target.0 as int, target.1 as int),
    ensures
        out.1.wf(),
        out.1.spec_width() == grid.spec_width(),
        out.1.spec_height() == grid.spec_height(),
        out.2@.parent == out.1@,
        out.2@.inv(grid, cell_of(source)),
        out.0 ==> out.2@.active == Some(cell_of(target)),
        !out.0 ==> !reachable(grid, cell_of(source), cell_of(target)),
{
    let width = grid.width();
    let height = grid.height();
    let mut seen: Table<bool> = Table::filled(width, height, false);
    let mut parent: Table<Option<(usize, usize)>> = Table::filled(width, height, None);
    let mut queue: VecDeque<(usize, usize)> = VecDeque::new();
    queue.push_back(source);
    seen.set(source.0, source.1, true);
    let ghost src = cell_of(source);
    let ghost goal = cell_of(target);
    let ghost mut s = initial(seen@, parent@, source);
    proof {
        lemma_initial(grid, seen@, parent@, source);
        assert(s.is_queued(src)) by {
            assert(cell_of(s.queue[0]) == src);
        }
    }
    let mut found = false;
    while !found && queue.len() > 0
        invariant
            grid.wf(),
            grid.in_bounds(target.0 as int, target.1 as int),
            width == grid.spec_width(),
            height == grid.spec_height(),
            src == cell_of(source),
            goal == cell_of(target),
            seen.wf(),
            seen.spec_width() == width,
            seen.spec_height() == height,
            parent.wf(),
            parent.spec_width() == width,
            parent.spec_height() == height,
            s.seen == seen@,
            s.parent == parent@,
            s.queue == queue@,
            s.inv(grid, src),
            !found ==> s.active is None && !s.is_settled(goal),
            found ==> s.active == Some(goal),
        decreases count_in_rows(seen@, false), queue@.len(),
    {
        let ghost unseen = count_in_rows(seen@, false);
        let ghost waiting = queue@.len();
        let head = queue.pop_front();
        let cur = match head {
            Some(cell) => cell,
            None => source,
        };
        proof {
            lemma_popped(grid, src, s);
            s = s.popped();
        }
        if cur.0 == target.0 && cur.1 == target.1 {
            found = true;
        } else {
            let mut k: usize = 0;
            while k < 4
                invariant
                    grid.wf(),
                    width == grid.spec_width(),
                    height == grid.spec_height(),
                    seen.wf(),
                    seen.spec_width() == width,
                    seen.spec_height() == height,
                    parent.wf(),
                    parent.spec_width() == width,
                    parent.spec_height() == height,
                    s.seen == seen@,
                    s.parent == parent@,
                    s.queue == queue@,
                    s.inv(grid, src),
                    s.active == Some(cell_of(cur)),
                    s.tried == k,
                    k <= 4,
                    cell_of(cur) != goal,
                    !s.is_settled(goal),
                    count_in_rows(seen@, false) < unseen || (count_in_rows(seen@, false) == unseen
                        && queue@.len() == waiting - 1),
                decreases 4 - k,
            {
                let step = step_at(k);
                let mut reached: Option<(usize, usize)> = None;
                match neighbor(grid, cur, step) {
                    Some(next) => {
                        if grid.get(next.0, next.1) != Cell::Wall && !seen.get(next.0, next.1) {
                            reached = Some(next);
                        }
                    },
                    None => {},
                }
                match reached {
                    Some(next) => {
                        proof {
                            lemma_visited(grid, src, s, cur, next);
                            lemma_count_in_rows_update(
                                seen@,
                                next.0 as int,
                                next.1 as int,
                                true,
                                false,
                            );
                        }
                        queue.push_back(next);
                        seen.set(next.0, next.1, true);
                        parent.set(next.0, next.1, Some(cur));
                        proof {
                            s = s.visited(cur, next);
                        }
                    },
                    None => {
                        proof {
                            lemma_skipped(grid, src, s);
                            s = s.skipped();
                        }
                    },
                }
                k += 1;
            }
            proof {
                lemma_finished(grid, src, s);
                s = s.finished();
            }
        }
    }
    proof {
        if !found {
            assert forall|steps: nat| !reaches_in(grid, src, goal, steps) by {
                if reaches_in(grid, src, goal, steps) {
                    lemma_exhausted(grid, src, s, goal, steps);
                }
            }
        }
    }
    (found, parent, Ghost(s))
}

/// Walks from `target` back along the parents that a search left, to the
/// cell whose parent is `source`, and returns the step from `source` to it.
fn trace_back(
    grid: &Grid,
    parent: &Table<Option<(usize, usize)>>,
    source: (usize, usize),
    target: (usize, usize),
    Ghost(s): Ghost<Search>,
) -> (step: Option<(i32, i32)>)
    requires
        grid.in_bounds(target.0 as int, target.1 as int),
        parent.wf(),
        parent.spec_width() == grid.spec_width(),
        parent.spec_height() == grid.spec_height(),
        s.parent == parent@,
        s.inv(grid, cell_of(source)),
        s.active == Some(cell_of(target)),
    ensures
        step == best_first_step(grid, cell_of(source), cell_of(target)),
{
    let ghost src = cell_of(source);
    let ghost goal = cell_of(target);
    let ghost far = s.level[goal];
    proof {
        lemma_level_is_distance(grid, src, s, goal);
        lemma_distance(grid, src, goal, far);
    }
    let mut at = target;
    loop
        invariant
            grid.wf(),
            parent.wf(),
            parent.spec_width() == grid.spec_width(),
            parent.spec_height() == grid.spec_height(),
            s.parent == parent@,
            s.inv(grid, src),
            src == cell_of(source),
            goal == cell_of(target),
            far == s.level[goal],
            distance(grid, src, goal) == far,
            reachable(grid, src, goal),
            s.is_seen(cell_of(at)),
            s.is_seen(goal),
            s.level[cell_of(at)] <= far,
            reaches_in(grid, cell_of(at), goal, (far - s.level[cell_of(at)]) as nat),
            cell_of(at) == src ==> goal == src,
            cell_of(at) != src ==> s.root[cell_of(at)] == s.root[goal],
        decreases s.level[cell_of(at)],
    {
        match parent.get(at.0, at.1) {
            None => {
                return None;
            },
            Some(prev) => {
                if prev.0 == source.0 && prev.1 == source.1 {
                    let step = step_between(source, at);
                    if grid.is_passable(at.0, at.1) {
                        return Some(step);
                    }
                    return None;
                }
                proof {
                    lemma_walk_prepend(
                        grid,
                        cell_of(prev),
                        cell_of(at),
                        goal,
                        (far - s.level[cell_of(at)]) as nat,
                    );
                }
                at = prev;
            },
        }
    }
}

/// The first step of a shortest walk from `source` to `target` over cells
/// that are not walls: none where `target` is `source` or cannot be reached,
/// else, of the unit steps with which a shortest walk begins, the first in
/// the order up, down, left, right. The step never leads onto a wall.
pub fn shortest_first_step(grid: &Grid, source: (usize, usize), target: (usize, usize)) -> (step:
    Option<(i32, i32)>)
    requires
        grid.wf(),
        grid.in_bounds(source.0 as int, source.1 as int),
        grid.in_bounds(target.0 as int, target.1 as int),
    ensures
        step == best_first_step(grid, cell_of(source), cell_of(target)),
        step matches Some(to) ==> is_unit_step(to) && grid.passable(
            moved(cell_of(source), to).0,
            moved(cell_of(source), to).1,
        ),
{
    proof {
        lemma_best_first_step_leads(grid, cell_of(source), cell_of(target));
    }
    let (found, parent, state) = explore(grid, source, target);
    if found {
        trace_back(grid, &parent, source, target, state)
    } else {
        None
    }
}

} // verus!
