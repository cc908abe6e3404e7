//! What the proof knows of a breadth-first search while it runs, and why
//! each step of the search keeps it true.
//!
//! The search reaches cells level by level: a cell of level `n` is `n` steps
//! from the source and no walk to it is shorter. Within a level the cells
//! are reached in the order of their roots, the unit step with which the
//! walk to them begins. So the walk that the search finds to a cell is,
//! among the shortest, the one that begins with the first step in search
//! order.

use crate::grid::Grid;
use crate::path::{
    adjacent, cell_of, distance_is, leads, lemma_adjacent_is_step, lemma_walk_append,
    lemma_walk_prepend, moved, reaches_in, unit_step,
};
use crate::table::{rectangular, with_entry};
use vstd::prelude::*;

verus! {

/// The state of a search in progress, as the proof sees it.
pub struct Search {
    /// Which cells the search has reached.
    pub seen: Seq<Seq<bool>>,
    /// For each reached cell but the source, the cell it was reached from.
    pub parent: Seq<Seq<Option<(usize, usize)>>>,
    /// The reached cells whose neighbours are still to be looked at.
    pub queue: Seq<(usize, usize)>,
    /// For each reached cell, the number of steps of the walk that reached it.
    pub level: Map<(int, int), nat>,
    /// For each reached cell but the source, the index of the unit step with
    /// which the walk that reached it begins; for the source, -1.
    pub root: Map<(int, int), int>,
    /// The level of the cell taken from the queue last.
    pub frontier: nat,
    /// The cell whose neighbours are being looked at, if any.
    pub active: Option<(int, int)>,
    /// How many of the neighbours of the active cell have been looked at.
    pub tried: int,
}

impl Search {
    /// The search has reached `cell`.
    pub open spec fn is_seen(self, cell: (int, int)) -> bool {
        &&& 0 <= cell.1 < self.seen.len()
        &&& 0 <= cell.0 < self.seen[cell.1].len()
        &&& self.seen[cell.1][cell.0]
    }

    /// `cell` waits in the queue.
    pub open spec fn is_queued(self, cell: (int, int)) -> bool {
        exists|i: int| 0 <= i < self.queue.len() && cell_of(#[trigger] self.queue[i]) == cell
    }

    /// The search has looked at all neighbours of `cell`.
    pub open spec fn is_settled(self, cell: (int, int)) -> bool {
        self.is_seen(cell) && !self.is_queued(cell) && self.active != Some(cell)
    }

    /// Of the first `count` neighbours of `cell`, those that can be entered
    /// have been reached.
    pub open spec fn closed_upto(self, grid: &Grid, cell: (int, int), count: int) -> bool {
        forall|k: int|
            0 <= k < count ==> {
                let next = moved(cell, #[trigger] unit_step(k));
                grid.passable(next.0, next.1) ==> self.is_seen(next)
            }
    }

    /// Both tables have the size of the grid.
    pub open spec fn shaped(self, grid: &Grid) -> bool {
        &&& rectangular(self.seen, grid.spec_width(), grid.spec_height())
        &&& rectangular(self.parent, grid.spec_width(), grid.spec_height())
    }

    /// Every reached cell but the source can be entered and was reached
    /// from a reached cell next to it, one level below.
    pub open spec fn linked(self, grid: &Grid, source: (int, int)) -> bool {
        forall|cell: (int, int)|
            #[trigger] self.is_seen(cell) && cell != source ==> {
                &&& grid.passable(cell.0, cell.1)
                &&& self.level[cell] >= 1
                &&& 0 <= self.root[cell] < 4
                &&& match self.parent[cell.1][cell.0] {
                    Some(from) => {
                        &&& self.is_seen(cell_of(from))
                        &&& adjacent(cell_of(from), cell)
                        &&& self.level[cell] == self.level[cell_of(from)] + 1
                        &&& if cell_of(from) == source {
                            cell == moved(source, unit_step(self.root[cell]))
                        } else {
                            self.root[cell] == self.root[cell_of(from)]
                        }
                    },
                    None => false,
                }
            }
    }

    /// No walk from the source to a reached cell that is as short as its
    /// level begins with a unit step that comes before its root.
    pub open spec fn first_choice(self, grid: &Grid, source: (int, int)) -> bool {
        forall|cell: (int, int), e: int|
            #[trigger] self.is_seen(cell) && cell != source && 0 <= e < self.root[cell] ==> !leads(
                grid,
                source,
                #[trigger] unit_step(e),
                cell,
                (self.level[cell] - 1) as nat,
            )
    }

    /// The largest root that a cell reached from the active cell so far can
    /// have.
    pub open spec fn child_root_bound(self) -> int {
        if self.frontier == 0 {
            self.tried - 1
        } else {
            self.root[self.active->0]
        }
    }

    /// The root that a cell reached from the active cell now gets.
    pub open spec fn child_root(self) -> int {
        if self.frontier == 0 {
            self.tried
        } else {
            self.root[self.active->0]
        }
    }

    /// Cells that were not reached, and the source, have no parent.
    pub open spec fn rooted(self, grid: &Grid, source: (int, int)) -> bool {
        &&& grid.in_bounds(source.0, source.1)
        &&& self.is_seen(source)
        &&& self.level[source] == 0
        &&& self.root[source] == -1
        &&& self.parent[source.1][source.0] is None
        &&& forall|cell: (int, int)|
            grid.in_bounds(cell.0, cell.1) && !(#[trigger] self.is_seen(cell))
                ==> self.parent[cell.1][cell.0] is None
    }

    /// A walk of as many steps as its level leads from the source to each
    /// reached cell, and no level is more than one above the frontier.
    pub open spec fn walked(self, grid: &Grid, source: (int, int)) -> bool {
        forall|cell: (int, int)| #[trigger]
            self.is_seen(cell) ==> {
                &&& reaches_in(grid, source, cell, self.level[cell])
                &&& self.level[cell] <= self.frontier + 1
            }
    }

    /// The queue holds reached cells, each once, in the order of their
    /// levels, which are the frontier or one above it.
    pub open spec fn queue_ordered(self) -> bool {
        &&& forall|i: int|
            0 <= i < self.queue.len() ==> {
                let cell = cell_of(#[trigger] self.queue[i]);
                &&& self.is_seen(cell)
                &&& self.frontier <= self.level[cell] <= self.frontier + 1
            }
        &&& forall|i: int, j: int|
            0 <= i < j < self.queue.len() ==> {
                let a = cell_of(#[trigger] self.queue[i]);
                let b = cell_of(#[trigger] self.queue[j]);
                &&& self.level[a] <= self.level[b]
                &&& self.queue[i] != self.queue[j]
                &&& self.level[a] == self.level[b] ==> self.root[a] <= self.root[b]
                &&& self.level[b] == self.level[a] + 1 ==> self.root[b] <= self.root[a]
            }
    }

    /// Settled cells lie at or below the frontier and are closed.
    pub open spec fn settled_closed(self, grid: &Grid) -> bool {
        forall|cell: (int, int)| #[trigger]
            self.is_settled(cell) ==> {
                &&& self.level[cell] <= self.frontier
                &&& self.closed_upto(grid, cell, 4)
            }
    }

    /// The active cell lies at the frontier and is closed as far as its
    /// neighbours were looked at.
    pub open spec fn active_partly_closed(self, grid: &Grid) -> bool {
        match self.active {
            Some(cell) => {
                &&& self.is_seen(cell)
                &&& !self.is_queued(cell)
                &&& self.level[cell] == self.frontier
                &&& 0 <= self.tried <= 4
                &&& self.closed_upto(grid, cell, self.tried)
                &&& forall|i: int|
                    0 <= i < self.queue.len() ==> {
                        let other = cell_of(#[trigger] self.queue[i]);
                        &&& self.level[other] == self.frontier ==> self.root[other]
                            >= self.root[cell]
                        &&& self.level[other] == self.frontier + 1 ==> self.root[other]
                            <= self.child_root_bound()
                    }
            },
            None => true,
        }
    }

    /// Every cell within reach of the source in no more steps than the
    /// frontier has been reached, at a level that is no more than those steps.
    pub open spec fn near_reached(self, grid: &Grid, source: (int, int)) -> bool {
        forall|cell: (int, int), steps: nat|
            steps <= self.frontier && #[trigger] reaches_in(grid, source, cell, steps) ==> {
                &&& self.is_seen(cell)
                &&& self.level[cell] <= steps
            }
    }

    /// What holds of a search from `source` at every moment.
    pub open spec fn inv(self, grid: &Grid, source: (int, int)) -> bool {
        &&& grid.wf()
        &&& self.shaped(grid)
        &&& self.rooted(grid, source)
        &&& self.linked(grid, source)
        &&& self.walked(grid, source)
        &&& self.first_choice(grid, source)
        &&& self.queue_ordered()
        &&& self.settled_closed(grid)
        &&& self.active_partly_closed(grid)
        &&& self.near_reached(grid, source)
    }

    /// The state after the first cell of the queue was taken out to have its
    /// neighbours looked at.
    pub open spec fn popped(self) -> Search {
        let head = cell_of(self.queue[0]);
        Search {
            queue: self.queue.subrange(1, self.queue.len() as int),
            frontier: self.level[head],
            active: Some(head),
            tried: 0,
            ..self
        }
    }

    /// The state after one more neighbour of the active cell was looked at
    /// and left alone.
    pub open spec fn skipped(self) -> Search {
        Search { tried: self.tried + 1, ..self }
    }

    /// The state after the neighbour `next` of the active cell `from` was
    /// reached.
    pub open spec fn visited(self, from: (usize, usize), next: (usize, usize)) -> Search {
        Search {
            seen: with_entry(self.seen, next.0 as int, next.1 as int, true),
            parent: with_entry(self.parent, next.0 as int, next.1 as int, Some(from)),
            queue: self.queue.push(next),
            level: self.level.insert(cell_of(next), self.frontier + 1),
            root: self.root.insert(cell_of(next), self.child_root()),
            tried: self.tried + 1,
            ..self
        }
    }

    /// The state after all neighbours of the active cell were looked at.
    pub open spec fn finished(self) -> Search {
        Search { active: None, ..self }
    }
}

/// The state in which a search from `source` starts.
pub open spec fn initial(
    seen: Seq<Seq<bool>>,
    parent: Seq<Seq<Option<(usize, usize)>>>,
    source: (usize, usize),
) -> Search {
    Search {
        seen,
        parent,
        queue: seq![source],
        level: Map::empty().insert(cell_of(source), 0nat),
        root: Map::empty().insert(cell_of(source), -1int),
        frontier: 0,
        active: None,
        tried: 0,
    }
}

/// A search starts in a state that meets the invariant.
pub proof fn lemma_initial(
    grid: &Grid,
    seen: Seq<Seq<bool>>,
    parent: Seq<Seq<Option<(usize, usize)>>>,
    source: (usize, usize),
)
    requires
        grid.wf(),
        grid.in_bounds(source.0 as int, source.1 as int),
        rectangular(seen, grid.spec_width(), grid.spec_height()),
        rectangular(parent, grid.spec_width(), grid.spec_height()),
        forall|x: int, y: int|
            grid.in_bounds(x, y) ==> (#[trigger] seen[y][x] <==> (x, y) == cell_of(source)),
        forall|x: int, y: int| grid.in_bounds(x, y) ==> #[trigger] parent[y][x] is None,
    ensures
        initial(seen, parent, source).inv(grid, cell_of(source)),
{
    let s = initial(seen, parent, source);
    assert(s.queue[0] == source);
}

/// Taking the first cell out of the queue keeps the invariant. Where it
/// lies one level above the frontier, all cells at the frontier are settled,
/// and so every cell one step further has been reached.
pub proof fn lemma_popped(grid: &Grid, source: (int, int), s: Search)
    requires
        s.inv(grid, source),
        s.active is None,
        s.queue.len() > 0,
    ensures
        s.popped().inv(grid, source),
        s.popped().frontier == s.level[cell_of(s.queue[0])],
        forall|cell: (int, int)|
            s.is_settled(cell) <==> #[trigger] s.popped().is_settled(cell),
{
    let t = s.popped();
    let head = cell_of(s.queue[0]);
    assert(forall|cell: (int, int)| s.is_seen(cell) == t.is_seen(cell));
    assert forall|cell: (int, int)| s.is_queued(cell) <==> (cell == head || t.is_queued(
        cell,
    )) by {
        if s.is_queued(cell) {
            let i = choose|i: int| 0 <= i < s.queue.len() && cell_of(#[trigger] s.queue[i]) == cell;
            if i > 0 {
                assert(cell_of(t.queue[i - 1]) == cell);
            }
        }
    }
    assert(t.settled_closed(grid)) by {
        assert forall|cell: (int, int)| #[trigger] t.is_settled(cell) implies t.level[cell]
            <= t.frontier && t.closed_upto(grid, cell, 4) by {
            assert(s.is_settled(cell));
        }
    }
    assert(t.near_reached(grid, source)) by {
        assert forall|cell: (int, int), steps: nat|
            steps <= t.frontier && #[trigger] reaches_in(grid, source, cell, steps) implies t.is_seen(
            cell,
        ) && t.level[cell] <= steps by {
            if steps > s.frontier {
                let mid = choose|mid: (int, int)| #[trigger]
                    adjacent(mid, cell) && reaches_in(grid, source, mid, (steps - 1) as nat);
                assert(s.is_settled(mid));
                lemma_adjacent_is_step(mid, cell);
            }
        }
    }
}

/// Leaving a neighbour alone that cannot be entered, or that has been
/// reached before, keeps the invariant.
pub proof fn lemma_skipped(grid: &Grid, source: (int, int), s: Search)
    requires
        s.inv(grid, source),
        s.active is Some,
        s.tried < 4,
        ({
            let next = moved(s.active->0, unit_step(s.tried));
            grid.passable(next.0, next.1) ==> s.is_seen(next)
        }),
    ensures
        s.skipped().inv(grid, source),
{
    let t = s.skipped();
    assert(forall|cell: (int, int)| s.is_seen(cell) == t.is_seen(cell));
    assert forall|cell: (int, int)| s.is_queued(cell) == t.is_queued(cell) by {
        if s.is_queued(cell) {
            let i = choose|i: int| 0 <= i < s.queue.len() && cell_of(#[trigger] s.queue[i]) == cell;
            assert(cell_of(t.queue[i]) == cell);
        }
    }
    assert(t.settled_closed(grid)) by {
        assert forall|cell: (int, int)| #[trigger] t.is_settled(cell) implies t.level[cell]
            <= t.frontier && t.closed_upto(grid, cell, 4) by {
            assert(s.is_settled(cell));
        }
    }
}

/// Reaching a neighbour of the active cell that can be entered and was not
/// reached before keeps the invariant.
pub proof fn lemma_visited(
    grid: &Grid,
    source: (int, int),
    s: Search,
    from: (usize, usize),
    next: (usize, usize),
)
    requires
        s.inv(grid, source),
        s.active == Some(cell_of(from)),
        s.tried < 4,
        cell_of(next) == moved(cell_of(from), unit_step(s.tried)),
        grid.passable(next.0 as int, next.1 as int),
        !s.is_seen(cell_of(next)),
    ensures
        s.visited(from, next).inv(grid, source),
        forall|cell: (int, int)|
            s.is_settled(cell) <==> #[trigger] s.visited(from, next).is_settled(cell),
{
    let t = s.visited(from, next);
    let cur = cell_of(from);
    let new = cell_of(next);
    assert forall|cell: (int, int)| t.is_queued(cell) <==> (cell == new || s.is_queued(
        cell,
    )) by {
        if s.is_queued(cell) {
            let i = choose|i: int| 0 <= i < s.queue.len() && cell_of(#[trigger] s.queue[i]) == cell;
            assert(cell_of(t.queue[i]) == cell);
        }
        if cell == new {
            assert(cell_of(t.queue[s.queue.len() as int]) == cell);
        }
    }
    assert(t.rooted(grid, source)) by {
        assert forall|cell: (int, int)|
            grid.in_bounds(cell.0, cell.1) && !(#[trigger] t.is_seen(cell)) implies t.parent[cell.1][cell.0] is None by {
            assert(!s.is_seen(cell));
        }
    }
    assert(t.linked(grid, source)) by {
        assert forall|cell: (int, int)| #[trigger] t.is_seen(cell) && cell != source implies {
            &&& grid.passable(cell.0, cell.1)
            &&& t.level[cell] >= 1
            &&& 0 <= t.root[cell] < 4
            &&& match t.parent[cell.1][cell.0] {
                Some(from) => {
                    &&& t.is_seen(cell_of(from))
                    &&& adjacent(cell_of(from), cell)
                    &&& t.level[cell] == t.level[cell_of(from)] + 1
                    &&& if cell_of(from) == source {
                        cell == moved(source, unit_step(t.root[cell]))
                    } else {
                        t.root[cell] == t.root[cell_of(from)]
                    }
                },
                None => false,
            }
        } by {
            if cell != new {
                assert(s.is_seen(cell));
            }
        }
    }
    assert(t.walked(grid, source)) by {
        assert forall|cell: (int, int)| #[trigger] t.is_seen(cell) implies reaches_in(
            grid,
            source,
            cell,
            t.level[cell],
        ) && t.level[cell] <= t.frontier + 1 by {
            if cell == new {
                lemma_walk_append(grid, source, cur, new, s.frontier);
            } else {
                assert(s.is_seen(cell));
            }
        }
    }
    assert(t.first_choice(grid, source)) by {
        assert forall|cell: (int, int), e: int|
            #[trigger] t.is_seen(cell) && cell != source && 0 <= e < t.root[cell] implies !leads(
            grid,
            source,
            #[trigger] unit_step(e),
            cell,
            (t.level[cell] - 1) as nat,
        ) by {
            if cell == new {
                lemma_no_earlier_step(grid, source, s, from, next, e);
            } else {
                assert(s.is_seen(cell));
            }
        }
    }
    assert(t.settled_closed(grid)) by {
        assert forall|cell: (int, int)| #[trigger] t.is_settled(cell) implies t.level[cell]
            <= t.frontier && t.closed_upto(grid, cell, 4) by {
            assert(s.is_settled(cell));
        }
    }
}

/// No shortest walk to a cell that is reached now begins with a unit step
/// that comes before the root it gets: the cell before it on such a walk
/// would have been looked at earlier, and the cell with it.
pub proof fn lemma_no_earlier_step(
    grid: &Grid,
    source: (int, int),
    s: Search,
    from: (usize, usize),
    next: (usize, usize),
    e: int,
)
    requires
        s.inv(grid, source),
        s.active == Some(cell_of(from)),
        s.tried < 4,
        cell_of(next) == moved(cell_of(from), unit_step(s.tried)),
        grid.passable(next.0 as int, next.1 as int),
        !s.is_seen(cell_of(next)),
        0 <= e < s.child_root(),
    ensures
        !leads(grid, source, unit_step(e), cell_of(next), s.frontier),
{
    let new = cell_of(next);
    let first = moved(source, unit_step(e));
    if leads(grid, source, unit_step(e), new, s.frontier) {
        if s.frontier > 0 {
            let mid = choose|mid: (int, int)| #[trigger]
                adjacent(mid, new) && reaches_in(grid, first, mid, (s.frontier - 1) as nat);
            lemma_walk_prepend(grid, source, first, mid, (s.frontier - 1) as nat);
            if s.is_settled(mid) {
                lemma_adjacent_is_step(mid, new);
            }
        }
    }
}

/// When all four neighbours of the active cell were looked at, the cell is
/// settled.
pub proof fn lemma_finished(grid: &Grid, source: (int, int), s: Search)
    requires
        s.inv(grid, source),
        s.active is Some,
        s.tried == 4,
    ensures
        s.finished().inv(grid, source),
        forall|cell: (int, int)|
            #[trigger] s.finished().is_settled(cell) <==> (s.is_settled(cell) || Some(cell)
                == s.active),
{
    let t = s.finished();
    assert(forall|cell: (int, int)| s.is_seen(cell) == t.is_seen(cell));
    assert forall|cell: (int, int)| s.is_queued(cell) == t.is_queued(cell) by {
        if s.is_queued(cell) {
            let i = choose|i: int| 0 <= i < s.queue.len() && cell_of(#[trigger] s.queue[i]) == cell;
            assert(cell_of(t.queue[i]) == cell);
        }
    }
    assert(t.settled_closed(grid)) by {
        assert forall|cell: (int, int)| #[trigger] t.is_settled(cell) implies t.level[cell]
            <= t.frontier && t.closed_upto(grid, cell, 4) by {
            if Some(cell) != s.active {
                assert(s.is_settled(cell));
            }
        }
    }
}

/// When the queue has run empty, every cell within reach of the source has
/// been reached.
pub proof fn lemma_exhausted(
    grid: &Grid,
    source: (int, int),
    s: Search,
    cell: (int, int),
    steps: nat,
)
    requires
        s.inv(grid, source),
        s.active is None,
        s.queue.len() == 0,
        reaches_in(grid, source, cell, steps),
    ensures
        s.is_seen(cell),
    decreases steps,
{
    if steps > 0 {
        let mid = choose|mid: (int, int)| #[trigger]
            adjacent(mid, cell) && reaches_in(grid, source, mid, (steps - 1) as nat);
        lemma_exhausted(grid, source, s, mid, (steps - 1) as nat);
        assert(s.is_settled(mid));
        lemma_adjacent_is_step(mid, cell);
    }
}

/// The level of a cell at or below the frontier is its distance from the
/// source.
pub proof fn lemma_level_is_distance(grid: &Grid, source: (int, int), s: Search, cell: (int, int))
    requires
        s.inv(grid, source),
        s.is_seen(cell),
        s.level[cell] <= s.frontier,
    ensures
        distance_is(grid, source, cell, s.level[cell]),
{
}

} // verus!
