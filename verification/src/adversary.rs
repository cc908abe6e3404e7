//! How an adversary picks its move: it pursues a target along a shortest
//! walk, but now and then pursues a decoy instead, and now and then takes a
//! random legal step whatever the walk says.

use crate::grid::Grid;
use crate::path::{
    best_first_step, cell_of, is_unit_step, lemma_best_first_step_leads,
    lemma_enclosed_has_no_step, moved, neighbor, unit_step,
};
use crate::pathfinder::shortest_first_step;
use crate::random::{draw_between, shuffle_steps};
use rand::rngs::ThreadRng;
use vstd::prelude::*;

verus! {

/// Out of a hundred moves, in how many an adversary pursues a decoy.
pub const SCATTER_PERCENT: usize = 30;

/// Out of a hundred moves, in how many an adversary takes a random legal
/// step.
pub const MISTAKE_PERCENT: usize = 30;

/// The move that leaves an adversary where it is.
pub open spec fn stay() -> (i32, i32) {
    (0i32, 0i32)
}

/// The four unit steps in search order.
pub open spec fn unit_steps() -> Seq<(i32, i32)> {
    seq![unit_step(0), unit_step(1), unit_step(2), unit_step(3)]
}

/// `step` leads from `from` onto a cell of the grid that is not a wall.
pub open spec fn is_legal(grid: &Grid, from: (int, int), step: (i32, i32)) -> bool {
    grid.passable(moved(from, step).0, moved(from, step).1)
}

/// The first step of `order` that is legal from `from`, if there is one.
pub open spec fn first_legal_step(grid: &Grid, from: (int, int), order: Seq<(i32, i32)>) -> Option<
    (i32, i32),
>
    decreases order.len(),
{
    if order.len() == 0 {
        None
    } else if is_legal(grid, from, order[0]) {
        Some(order[0])
    } else {
        first_legal_step(grid, from, order.drop_first())
    }
}

/// A roll out of a hundred that makes an adversary pursue a decoy.
pub open spec fn is_scatter(roll: usize) -> bool {
    roll < SCATTER_PERCENT
}

/// A roll out of a hundred that makes an adversary take a random legal step.
pub open spec fn is_mistake(roll: usize) -> bool {
    roll < MISTAKE_PERCENT
}

/// The move of an adversary at `from` that pursues `pursuit`. With a detour
/// it takes the first legal step of the detour. Without one, or where no
/// step of it is legal, it takes the first step of a shortest walk to
/// `pursuit`, and stays where there is none.
pub open spec fn chosen_move(
    grid: &Grid,
    from: (int, int),
    pursuit: (int, int),
    detour: Option<Seq<(i32, i32)>>,
) -> (i32, i32) {
    let wander = match detour {
        Some(order) => first_legal_step(grid, from, order),
        None => None,
    };
    match wander {
        Some(step) => step,
        None => match best_first_step(grid, from, pursuit) {
            Some(step) => step,
            None => stay(),
        },
    }
}

/// What can be said of a move that `next_move` returns, whatever was drawn:
/// it is the move chosen for the true target or for a decoy inside the outer
/// ring, with no detour or with the four unit steps in some order as detour.
pub open spec fn may_move(grid: &Grid, from: (int, int), target: (int, int), step: (i32, i32)) -> bool {
    exists|pursuit: (int, int), detour: Option<Seq<(i32, i32)>>|
        {
            &&& pursuit == target || grid.interior(pursuit.0, pursuit.1)
            &&& detour matches Some(order) ==> order.to_multiset() == unit_steps().to_multiset()
            &&& step == #[trigger] chosen_move(grid, from, pursuit, detour)
        }
}

/// Whether a roll out of a hundred makes an adversary pursue a decoy.
pub fn scatters(roll: usize) -> (hit: bool)
    ensures
        hit == is_scatter(roll),
{
    roll < SCATTER_PERCENT
}

/// Whether a roll out of a hundred makes an adversary take a random legal
/// step.
pub fn mistakes(roll: usize) -> (hit: bool)
    ensures
        hit == is_mistake(roll),
{
    roll < MISTAKE_PERCENT
}

/// The first step of `order` that leads from `from` onto a cell of the grid
/// that is not a wall.
pub fn first_legal(grid: &Grid, from: (usize, usize), order: &Vec<(i32, i32)>) -> (step: Option<
    (i32, i32),
>)
    requires
        grid.wf(),
    ensures
        step == first_legal_step(grid, cell_of(from), order@),
{
    let mut i: usize = 0;
    assert(order@.subrange(0, order@.len() as int) =~= order@);
    while i < order.len()
        invariant
            grid.wf(),
            i <= order.len(),
            first_legal_step(grid, cell_of(from), order@) == first_legal_step(
                grid,
                cell_of(from),
                order@.subrange(i as int, order@.len() as int),
            ),
        decreases order.len() - i,
    {
        let step = order[i];
        let ghost rest = order@.subrange(i as int, order@.len() as int);
        proof {
            assert(rest.drop_first() =~= order@.subrange(i + 1, order@.len() as int));
        }
        match neighbor(grid, from, step) {
            Some(next) => {
                if grid.is_passable(next.0, next.1) {
                    return Some(step);
                }
            },
            None => {},
        }
        i += 1;
    }
    None
}

/// The move of an adversary at `from` that pursues `pursuit`, with the
/// detour that chance gave it, if any.
pub fn decide_move(
    grid: &Grid,
    from: (usize, usize),
    pursuit: (usize, usize),
    detour: Option<&Vec<(i32, i32)>>,
) -> (step: (i32, i32))
    requires
        grid.wf(),
        grid.in_bounds(from.0 as int, from.1 as int),
        grid.in_bounds(pursuit.0 as int, pursuit.1 as int),
    ensures
        step == chosen_move(
            grid,
            cell_of(from),
            cell_of(pursuit),
            match detour {
                Some(order) => Some(order@),
                None => None,
            },
        ),
{
    let wander = match detour {
        Some(order) => first_legal(grid, from, order),
        None => None,
    };
    match wander {
        Some(step) => step,
        None => match shortest_first_step(grid, from, pursuit) {
            Some(step) => step,
            None => (0, 0),
        },
    }
}

/// The four unit steps in search order.
pub fn all_steps() -> (steps: Vec<(i32, i32)>)
    ensures
        steps@ == unit_steps(),
{
    let mut steps: Vec<(i32, i32)> = Vec::new();
    steps.push((0, -1));
    steps.push((0, 1));
    steps.push((-1, 0));
    steps.push((1, 0));
    steps
}

/// The next move of an adversary at `from` whose target is at `target`.
///
/// Three times in ten the adversary pursues a cell drawn from inside the
/// outer ring instead of the target. Three times in ten, whatever it
/// pursues, it takes the first legal one of the four unit steps in a drawn
/// order. Else it takes the first step of a shortest walk to what it
/// pursues, and stays where there is none.
pub fn next_move(
    grid: &Grid,
    from: (usize, usize),
    target: (usize, usize),
    rng: &mut ThreadRng,
) -> (step: (i32, i32))
    requires
        grid.wf(),
        grid.spec_width() >= 3,
        grid.spec_height() >= 3,
        grid.in_bounds(from.0 as int, from.1 as int),
        grid.in_bounds(target.0 as int, target.1 as int),
    ensures
        may_move(grid, cell_of(from), cell_of(target), step),
        step == stay() || (is_unit_step(step) && is_legal(grid, cell_of(from), step)),
{
    let scatter_roll = draw_between(rng, 0, 100);
    let pursuit = if scatters(scatter_roll) {
        let x = draw_between(rng, 1, grid.width() - 1);
        let y = draw_between(rng, 1, grid.height() - 1);
        (x, y)
    } else {
        target
    };
    let mistake_roll = draw_between(rng, 0, 100);
    if mistakes(mistake_roll) {
        let mut order = all_steps();
        shuffle_steps(rng, &mut order);
        let step = decide_move(grid, from, pursuit, Some(&order));
        proof {
            lemma_rearranged_steps(order@);
            lemma_chosen_move_legal(grid, cell_of(from), cell_of(pursuit), Some(order@));
        }
        step
    } else {
        let step = decide_move(grid, from, pursuit, None);
        proof {
            lemma_chosen_move_legal(grid, cell_of(from), cell_of(pursuit), None);
        }
        step
    }
}

/// A rearrangement of the four unit steps holds unit steps only, and each
/// of the four.
pub proof fn lemma_rearranged_steps(order: Seq<(i32, i32)>)
    requires
        order.to_multiset() == unit_steps().to_multiset(),
    ensures
        order.len() == 4,
        forall|i: int| 0 <= i < order.len() ==> is_unit_step(#[trigger] order[i]),
        forall|k: int| 0 <= k < 4 ==> order.contains(#[trigger] unit_step(k)),
{
    order.to_multiset_ensures();
    unit_steps().to_multiset_ensures();
    assert forall|k: int| 0 <= k < 4 implies order.contains(#[trigger] unit_step(k)) by {
        assert(order.to_multiset().count(unit_step(k)) > 0);
    }
}

/// Where a step of `order` is the first legal one, it is one of `order` and
/// legal; where none is, no step of `order` is legal.
pub proof fn lemma_first_legal_step(grid: &Grid, from: (int, int), order: Seq<(i32, i32)>)
    ensures
        match first_legal_step(grid, from, order) {
            Some(step) => order.contains(step) && is_legal(grid, from, step),
            None => forall|i: int| 0 <= i < order.len() ==> !is_legal(grid, from, #[trigger] order[i]),
        },
    decreases order.len(),
{
    if order.len() > 0 && !is_legal(grid, from, order[0]) {
        let rest = order.drop_first();
        lemma_first_legal_step(grid, from, rest);
        match first_legal_step(grid, from, rest) {
            Some(step) => {
                let i = choose|i: int| 0 <= i < rest.len() && rest[i] == step;
            },
            None => {
                assert forall|i: int| 0 <= i < order.len() implies !is_legal(
                    grid,
                    from,
                    #[trigger] order[i],
                ) by {
                    if i > 0 {
                        assert(rest[i - 1] == order[i]);
                    }
                }
            },
        }
    }
}

/// An adversary never moves onto a wall or off the grid: the move chosen for
/// it is to stay, or a unit step onto a cell that is not a wall. This holds
/// with a detour as without, as long as the detour holds unit steps only.
pub proof fn lemma_chosen_move_legal(
    grid: &Grid,
    from: (int, int),
    pursuit: (int, int),
    detour: Option<Seq<(i32, i32)>>,
)
    requires
        detour matches Some(order) ==> forall|i: int|
            0 <= i < order.len() ==> is_unit_step(#[trigger] order[i]),
    ensures
        ({
            let step = chosen_move(grid, from, pursuit, detour);
            step == stay() || (is_unit_step(step) && is_legal(grid, from, step))
        }),
{
    lemma_best_first_step_leads(grid, from, pursuit);
    if let Some(order) = detour {
        lemma_first_legal_step(grid, from, order);
    }
}

/// An adversary with a wall, or the edge of the grid, on each of its four
/// sides stays where it is, whatever it pursues and whatever detour of unit
/// steps chance gives it.
pub proof fn lemma_enclosed_stays(
    grid: &Grid,
    from: (int, int),
    pursuit: (int, int),
    detour: Option<Seq<(i32, i32)>>,
)
    requires
        forall|k: int| 0 <= k < 4 ==> !is_legal(grid, from, #[trigger] unit_step(k)),
        detour matches Some(order) ==> forall|i: int|
            0 <= i < order.len() ==> is_unit_step(#[trigger] order[i]),
    ensures
        chosen_move(grid, from, pursuit, detour) == stay(),
{
    lemma_enclosed_has_no_step(grid, from, pursuit);
    if let Some(order) = detour {
        lemma_first_legal_step(grid, from, order);
    }
}

/// Whatever is drawn, the move that `next_move` may return is to stay or a
/// unit step onto a cell that is not a wall: a decoy changes only what is
/// pursued, and a detour holds the four unit steps.
pub proof fn lemma_may_move_legal(grid: &Grid, from: (int, int), target: (int, int), step: (i32, i32))
    requires
        may_move(grid, from, target, step),
    ensures
        step == stay() || (is_unit_step(step) && is_legal(grid, from, step)),
{
    let (pursuit, detour) = choose|pursuit: (int, int), detour: Option<Seq<(i32, i32)>>|
        {
            &&& pursuit == target || grid.interior(pursuit.0, pursuit.1)
            &&& detour matches Some(order) ==> order.to_multiset() == unit_steps().to_multiset()
            &&& step == #[trigger] chosen_move(grid, from, pursuit, detour)
        };
    if let Some(order) = detour {
        lemma_rearranged_steps(order);
    }
    lemma_chosen_move_legal(grid, from, pursuit, detour);
}

} // verus!
