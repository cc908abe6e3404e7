//! The session: a player and four adversaries in a maze, advanced by the
//! time that the host reports once per frame.
//!
//! Time is counted in whole microseconds. The player moves every 120 000 of
//! them while it is not halted, the adversaries every 250 000; each clock
//! fires at most once per update, however much time has passed.

use crate::adversary::{is_legal, lemma_may_move_legal, may_move, next_move, stay};
use crate::grid::{refilled, Cell, Grid};
use crate::maze::{extra_openings, generate, is_fresh_maze, lattice_size};
use crate::path::{cell_of, is_unit_step, moved, neighbor};
use crate::table::with_entry;
use rand::rngs::ThreadRng;
use vstd::prelude::*;

verus! {

/// The number of columns of the maze.
pub const WIDTH: usize = 28;

/// The number of rows of the maze.
pub const HEIGHT: usize = 31;

/// The number of adversaries.
pub const NUM_GHOSTS: usize = 4;

/// The share of the cells, in percent, that is drawn for opening after the
/// maze was carved.
pub const DENSITY_PERCENT: u32 = 80;

/// The microseconds between two moves of the player.
pub const PACMAN_MOVE_INTERVAL: u64 = 120_000;

/// The microseconds between two moves of the adversaries.
pub const GHOST_MOVE_INTERVAL: u64 = 250_000;

/// Where the player stands in a new session: the middle of the maze.
pub open spec fn player_start() -> (usize, usize) {
    (14usize, 15usize)
}

/// Where the player returns to on a reset.
pub open spec fn player_spawn() -> (usize, usize) {
    (14usize, 23usize)
}

/// Where the adversaries stand in a new session and after a reset.
pub open spec fn adversary_spawns() -> Seq<(usize, usize)> {
    seq![(13usize, 11usize), (14usize, 11usize), (15usize, 11usize), (16usize, 11usize)]
}

/// The directions of the adversaries in a new session and after a reset.
pub open spec fn adversary_headings() -> Seq<(i32, i32)> {
    seq![(0i32, 1i32), (0i32, -1i32), (1i32, 0i32), (-1i32, 0i32)]
}

/// A session as the contracts see it.
pub struct SessionView {
    /// The rows of the maze.
    pub cells: Seq<Seq<Cell>>,
    /// The cell of the player.
    pub player: (usize, usize),
    /// The direction that the player was last told to take.
    pub direction: (i32, i32),
    /// Whether the player stands still until told a direction.
    pub halted: bool,
    /// The cells of the adversaries.
    pub adversaries: Seq<(usize, usize)>,
    /// The move that each adversary made last.
    pub adversary_directions: Seq<(i32, i32)>,
    /// The microseconds counted since the player's clock fired.
    pub player_clock: u64,
    /// The microseconds counted since the adversaries' clock fired.
    pub adversary_clock: u64,
}

/// A clock that stands at `clock` fires when `elapsed` more microseconds
/// bring it to its interval or beyond.
pub open spec fn clock_fires(clock: u64, interval: u64, elapsed: u64) -> bool {
    clock + elapsed >= interval
}

/// Where a clock stands after `elapsed` more microseconds: at nought where it
/// fired, else that much further.
pub open spec fn clock_after(clock: u64, interval: u64, elapsed: u64) -> u64 {
    if clock_fires(clock, interval, elapsed) {
        0
    } else {
        (clock + elapsed) as u64
    }
}

/// The cell that the player would enter next.
pub open spec fn candidate(v: SessionView) -> (int, int) {
    moved(cell_of(v.player), v.direction)
}

/// The session after the player tried to move: halted where the candidate
/// cell is a wall, else on the candidate cell, whose pellet is eaten.
pub open spec fn after_player_step(v: SessionView) -> SessionView {
    let to = candidate(v);
    if v.cells[to.1][to.0] == Cell::Wall {
        SessionView { halted: true, ..v }
    } else {
        SessionView {
            player: (to.0 as usize, to.1 as usize),
            cells: if v.cells[to.1][to.0] == Cell::Pellet {
                with_entry(v.cells, to.0, to.1, Cell::Open)
            } else {
                v.cells
            },
            ..v
        }
    }
}

/// The cell that adversary `i` enters with its move.
pub open spec fn adversary_goal(v: SessionView, moves: Seq<(i32, i32)>, i: int) -> (int, int) {
    moved(cell_of(v.adversaries[i]), moves[i])
}

/// The session after all adversaries made their moves at once.
pub open spec fn after_adversary_moves(v: SessionView, moves: Seq<(i32, i32)>) -> SessionView {
    SessionView {
        adversaries: Seq::new(
            v.adversaries.len(),
            |i: int|
                (adversary_goal(v, moves, i).0 as usize, adversary_goal(v, moves, i).1 as usize),
        ),
        adversary_directions: moves,
        ..v
    }
}

/// The player shares its cell with an adversary.
pub open spec fn collides(v: SessionView) -> bool {
    exists|i: int| 0 <= i < v.adversaries.len() && #[trigger] v.adversaries[i] == v.player
}

/// The session after a reset: all actors back on their spawns, the player
/// halted, a pellet on every cell that is not a wall. The clocks stay.
pub open spec fn after_reset(v: SessionView) -> SessionView {
    SessionView {
        cells: refilled(v.cells),
        player: player_spawn(),
        direction: stay(),
        halted: true,
        adversaries: adversary_spawns(),
        adversary_directions: adversary_headings(),
        ..v
    }
}

/// The session after a collision was looked for: reset where there is one,
/// else as it was.
pub open spec fn after_collision_check(v: SessionView) -> SessionView {
    if collides(v) {
        after_reset(v)
    } else {
        v
    }
}

/// The session after a direction command: halted by the zero vector,
/// moving in the direction of a unit step, and unchanged by anything else.
pub open spec fn after_command(v: SessionView, dx: i32, dy: i32) -> SessionView {
    if (dx, dy) == stay() {
        SessionView { halted: true, ..v }
    } else if is_unit_step((dx, dy)) {
        SessionView { direction: (dx, dy), halted: false, ..v }
    } else {
        v
    }
}

/// The session after the adversaries' clock was advanced and, where it
/// fired, the adversaries made `moves`.
pub open spec fn after_adversary_tick(v: SessionView, elapsed: u64, moves: Seq<(i32, i32)>) -> SessionView {
    let moved = if clock_fires(v.adversary_clock, GHOST_MOVE_INTERVAL, elapsed) {
        after_adversary_moves(v, moves)
    } else {
        v
    };
    SessionView {
        adversary_clock: clock_after(v.adversary_clock, GHOST_MOVE_INTERVAL, elapsed),
        ..moved
    }
}

/// The session after the player's clock was advanced, which happens only
/// while the player is not halted, and, where it fired, the player tried to
/// move.
pub open spec fn after_player_tick(v: SessionView, elapsed: u64) -> SessionView {
    if v.halted {
        v
    } else {
        let ticked = SessionView {
            player_clock: clock_after(v.player_clock, PACMAN_MOVE_INTERVAL, elapsed),
            ..v
        };
        if clock_fires(v.player_clock, PACMAN_MOVE_INTERVAL, elapsed) {
            after_player_step(ticked)
        } else {
            ticked
        }
    }
}

/// The session after one update: the adversaries' tick, the player's tick,
/// then the look for a collision.
pub open spec fn after_update(v: SessionView, elapsed: u64, moves: Seq<(i32, i32)>) -> SessionView {
    after_collision_check(after_player_tick(after_adversary_tick(v, elapsed, moves), elapsed))
}

/// Advances a clock by `elapsed` microseconds and says whether it fired.
pub fn tick_clock(clock: &mut u64, interval: u64, elapsed: u64) -> (fired: bool)
    requires
        *old(clock) < interval,
    ensures
        fired == clock_fires(*old(clock), interval, elapsed),
        *final(clock) == clock_after(*old(clock), interval, elapsed),
        *final(clock) < interval,
{
    if elapsed >= interval - *clock {
        *clock = 0;
        true
    } else {
        *clock = *clock + elapsed;
        false
    }
}

/// The spawns of the adversaries.
pub fn spawn_positions() -> (cells: Vec<(usize, usize)>)
    ensures
        cells@ == adversary_spawns(),
{
    let mut cells: Vec<(usize, usize)> = Vec::new();
    cells.push((13, 11));
    cells.push((14, 11));
    cells.push((15, 11));
    cells.push((16, 11));
    cells
}

/// The first directions of the adversaries.
pub fn spawn_headings() -> (steps: Vec<(i32, i32)>)
    ensures
        steps@ == adversary_headings(),
{
    let mut steps: Vec<(i32, i32)> = Vec::new();
    steps.push((0, 1));
    steps.push((0, -1));
    steps.push((1, 0));
    steps.push((-1, 0));
    steps
}

/// A session of the maze chase.
pub struct PacmanGame {
    last_pacman_update: u64,
    last_ghost_update: u64,
    pacman: (usize, usize),
    direction: (i32, i32),
    adversaries: Vec<(usize, usize)>,
    adversary_directions: Vec<(i32, i32)>,
    stopped: bool,
    grid: Grid,
    rng: ThreadRng,
}

impl View for PacmanGame {
    type V = SessionView;

    closed spec fn view(&self) -> SessionView {
        SessionView {
            cells: self.grid@,
            player: self.pacman,
            direction: self.direction,
            halted: self.stopped,
            adversaries: self.adversaries@,
            adversary_directions: self.adversary_directions@,
            player_clock: self.last_pacman_update,
            adversary_clock: self.last_ghost_update,
        }
    }
}

impl PacmanGame {
    /// The maze of the session.
    pub closed spec fn maze(&self) -> &Grid {
        &self.grid
    }

    /// What holds of a session between any two calls: the maze has its
    /// size and a wall all around, every actor stands inside the outer ring,
    /// every direction is a unit step or none, a player that is not halted
    /// has a direction, and each clock stands below its interval.
    pub open spec fn wf(&self) -> bool {
        let v = self@;
        &&& self.maze().wf()
        &&& self.maze().spec_width() == WIDTH
        &&& self.maze().spec_height() == HEIGHT
        &&& self.maze().walled_in()
        &&& v.cells == self.maze()@
        &&& self.maze().interior(v.player.0 as int, v.player.1 as int)
        &&& v.direction == stay() || is_unit_step(v.direction)
        &&& !v.halted ==> is_unit_step(v.direction)
        &&& v.adversaries.len() == NUM_GHOSTS
        &&& v.adversary_directions.len() == NUM_GHOSTS
        &&& forall|i: int|
            0 <= i < v.adversaries.len() ==> self.maze().interior(
                (#[trigger] v.adversaries[i]).0 as int,
                v.adversaries[i].1 as int,
            )
        &&& v.player_clock < PACMAN_MOVE_INTERVAL
        &&& v.adversary_clock < GHOST_MOVE_INTERVAL
    }

    /// `moves` holds one move for each adversary, and each is a move that
    /// `next_move` may return for it with the player as target.
    pub open spec fn moves_drawn(&self, moves: Seq<(i32, i32)>) -> bool {
        &&& moves.len() == self@.adversaries.len()
        &&& forall|i: int|
            0 <= i < moves.len() ==> may_move(
                self.maze(),
                cell_of(self@.adversaries[i]),
                cell_of(self@.player),
                #[trigger] moves[i],
            )
    }

    /// `moves` holds one move for each adversary, and each is to stay or a
    /// unit step onto a cell that is not a wall.
    pub open spec fn moves_legal(&self, moves: Seq<(i32, i32)>) -> bool {
        &&& moves.len() == self@.adversaries.len()
        &&& forall|i: int|
            0 <= i < moves.len() ==> {
                ||| #[trigger] moves[i] == stay()
                ||| is_unit_step(moves[i]) && is_legal(
                    self.maze(),
                    cell_of(self@.adversaries[i]),
                    moves[i],
                )
            }
    }

    /// A new session: a fresh maze, the player halted in the middle of it,
    /// the adversaries on their spawns, both clocks at nought.
    pub fn new() -> (game: PacmanGame)
        ensures
            game.wf(),
            is_fresh_maze(game.maze()),
            game.maze().spec_count(Cell::Pellet) >= 2 * lattice_size(WIDTH as nat, HEIGHT as nat)
                - 1,
            game.maze().spec_count(Cell::Pellet) <= 2 * lattice_size(WIDTH as nat, HEIGHT as nat)
                - 1 + extra_openings(WIDTH as nat, HEIGHT as nat, DENSITY_PERCENT as nat),
            game@.player == player_start(),
            game@.direction == stay(),
            game@.halted,
            game@.adversaries == adversary_spawns(),
            game@.adversary_directions == adversary_headings(),
            game@.player_clock == 0,
            game@.adversary_clock == 0,
    {
        let mut rng = rand::thread_rng();
        let grid = generate(WIDTH, HEIGHT, DENSITY_PERCENT, &mut rng);
        PacmanGame {
            last_pacman_update: 0,
            last_ghost_update: 0,
            pacman: (WIDTH / 2, HEIGHT / 2),
            direction: (0, 0),
            adversaries: spawn_positions(),
            adversary_directions: spawn_headings(),
            stopped: true,
            grid,
            rng,
        }
    }

    /// The maze of the session.
    pub fn grid(&self) -> (grid: &Grid)
        ensures
            grid == self.maze(),
    {
        &self.grid
    }

    /// The cell of the player.
    pub fn pacman(&self) -> (cell: (usize, usize))
        ensures
            cell == self@.player,
    {
        self.pacman
    }

    /// The direction that the player was last told to take.
    pub fn direction(&self) -> (step: (i32, i32))
        ensures
            step == self@.direction,
    {
        self.direction
    }

    /// Whether the player stands still until told a direction.
    pub fn stopped(&self) -> (halted: bool)
        ensures
            halted == self@.halted,
    {
        self.stopped
    }

    /// The cells of the adversaries.
    pub fn ghosts(&self) -> (cells: &Vec<(usize, usize)>)
        ensures
            cells@ == self@.adversaries,
    {
        &self.adversaries
    }

    /// The move that each adversary made last.
    pub fn ghost_directions(&self) -> (steps: &Vec<(i32, i32)>)
        ensures
            steps@ == self@.adversary_directions,
    {
        &self.adversary_directions
    }

    /// Takes a direction command: the zero vector halts the player where it
    /// stands, a unit step sets it moving in that direction, and any other
    /// pair is left unheeded.
    pub fn change_direction(&mut self, dx: i32, dy: i32)
        requires
            old(self).wf(),
        ensures
            final(self).wf(),
            final(self).maze() == old(self).maze(),
            final(self)@ == after_command(old(self)@, dx, dy),
            (dx, dy) == stay() ==> final(self)@.halted && final(self)@.player == old(self)@.player,
    {
        if dx == 0 && dy == 0 {
            self.stopped = true;
        } else if (dx == 0 && (dy == 1 || dy == -1)) || (dy == 0 && (dx == 1 || dx == -1)) {
            self.direction = (dx, dy);
            self.stopped = false;
        }
    }

    /// Puts every actor back on its spawn, halts the player, and puts a
    /// pellet on every cell that is not a wall.
    pub fn reset(&mut self)
        requires
            old(self).wf(),
        ensures
            final(self).wf(),
            final(self)@ == after_reset(old(self)@),
            !collides(final(self)@),
            forall|x: int, y: int|
                final(self).maze().in_bounds(x, y) ==> #[trigger] final(self).maze().at(x, y) == (
                if old(self).maze().at(x, y) == Cell::Wall {
                    Cell::Wall
                } else {
                    Cell::Pellet
                }),
    {
        self.pacman = (14, 23);
        self.direction = (0, 0);
        self.stopped = true;
        self.adversaries = spawn_positions();
        self.adversary_directions = spawn_headings();
        self.grid.refill();
        proof {
            assert forall|x: int, y: int| self.grid.on_border(x, y) implies #[trigger] self.grid.at(
                x,
                y,
            ) == Cell::Wall by {
                assert(old(self).grid.at(x, y) == Cell::Wall);
            }
            lemma_spawns_apart();
        }
    }

    /// Whether the player shares its cell with an adversary.
    pub fn collided(&self) -> (hit: bool)
        ensures
            hit == collides(self@),
    {
        let mut i: usize = 0;
        while i < self.adversaries.len()
            invariant
                i <= self.adversaries.len(),
                forall|j: int| 0 <= j < i ==> self@.adversaries[j] != self@.player,
            decreases self.adversaries.len() - i,
        {
            let cell = self.adversaries[i];
            if cell.0 == self.pacman.0 && cell.1 == self.pacman.1 {
                assert(self@.adversaries[i as int] == self@.player);
                return true;
            }
            i += 1;
        }
        false
    }

    /// Resets the session where the player shares its cell with an
    /// adversary.
    pub fn check_collision(&mut self)
        requires
            old(self).wf(),
        ensures
            final(self).wf(),
            final(self)@ == after_collision_check(old(self)@),
            !collides(final(self)@),
    {
        if self.collided() {
            self.reset();
        }
    }

    /// Moves the player one cell in its direction. Where that cell is a
    /// wall, the player stays and is halted. Where it holds a pellet, the
    /// pellet is eaten.
    pub fn step_player(&mut self)
        requires
            old(self).wf(),
        ensures
            final(self).wf(),
            final(self)@ == after_player_step(old(self)@),
            old(self).maze().at(candidate(old(self)@).0, candidate(old(self)@).1) == Cell::Wall ==> {
                &&& final(self)@.player == old(self)@.player
                &&& final(self)@.halted
            },
            old(self).maze().at(candidate(old(self)@).0, candidate(old(self)@).1) == Cell::Pellet
                ==> {
                &&& cell_of(final(self)@.player) == candidate(old(self)@)
                &&& final(self).maze().at(candidate(old(self)@).0, candidate(old(self)@).1)
                    == Cell::Open
            },
    {
        match neighbor(&self.grid, self.pacman, self.direction) {
            Some(to) => {
                let cell = self.grid.get(to.0, to.1);
                if cell != Cell::Wall {
                    self.pacman = to;
                    if cell == Cell::Pellet {
                        self.grid.set(to.0, to.1, Cell::Open);
                    }
                    proof {
                        assert forall|x: int, y: int|
                            self.grid.on_border(x, y) implies #[trigger] self.grid.at(x, y)
                            == Cell::Wall by {
                            assert(old(self).grid.at(x, y) == Cell::Wall);
                        }
                    }
                } else {
                    self.stopped = true;
                }
            },
            None => {
                self.stopped = true;
            },
        }
    }

    /// Moves every adversary by its move, all at once, and records the
    /// moves as their directions.
    pub fn move_adversaries(&mut self, moves: &Vec<(i32, i32)>)
        requires
            old(self).wf(),
            old(self).moves_legal(moves@),
        ensures
            final(self).wf(),
            final(self).maze() == old(self).maze(),
            final(self)@ == after_adversary_moves(old(self)@, moves@),
    {
        let mut cells: Vec<(usize, usize)> = Vec::new();
        let mut steps: Vec<(i32, i32)> = Vec::new();
        let mut i: usize = 0;
        while i < self.adversaries.len()
            invariant
                self.wf(),
                self.moves_legal(moves@),
                *self == *old(self),
                i <= self.adversaries.len(),
                cells@.len() == i,
                steps@.len() == i,
                forall|j: int|
                    0 <= j < i ==> {
                        &&& cell_of(#[trigger] cells@[j]) == adversary_goal(self@, moves@, j)
                        &&& self.maze().interior(cells@[j].0 as int, cells@[j].1 as int)
                    },
                forall|j: int| 0 <= j < i ==> #[trigger] steps@[j] == moves@[j],
            decreases self.adversaries.len() - i,
        {
            let from = self.adversaries[i];
            let step = moves[i];
            let to = match neighbor(&self.grid, from, step) {
                Some(cell) => cell,
                None => from,
            };
            cells.push(to);
            steps.push(step);
            i += 1;
        }
        self.adversaries = cells;
        self.adversary_directions = steps;
        proof {
            assert(self@.adversaries =~= after_adversary_moves(old(self)@, moves@).adversaries);
            assert(self@.adversary_directions =~= moves@);
        }
    }

    /// Draws the next move of every adversary, each with the player as its
    /// target. The session stays as it is.
    pub fn plan_moves(&mut self) -> (moves: Vec<(i32, i32)>)
        requires
            old(self).wf(),
        ensures
            final(self).wf(),
            final(self)@ == old(self)@,
            final(self).maze() == old(self).maze(),
            final(self).moves_drawn(moves@),
            final(self).moves_legal(moves@),
    {
        let mut moves: Vec<(i32, i32)> = Vec::new();
        let mut i: usize = 0;
        while i < self.adversaries.len()
            invariant
                self.wf(),
                self@ == old(self)@,
                self.maze() == old(self).maze(),
                i <= self.adversaries.len(),
                moves@.len() == i,
                forall|j: int|
                    0 <= j < i ==> {
                        &&& may_move(
                            self.maze(),
                            cell_of(self@.adversaries[j]),
                            cell_of(self@.player),
                            #[trigger] moves@[j],
                        )
                        &&& (moves@[j] == stay() || (is_unit_step(moves@[j]) && is_legal(
                            self.maze(),
                            cell_of(self@.adversaries[j]),
                            moves@[j],
                        )))
                    },
            decreases self.adversaries.len() - i,
        {
            let from = self.adversaries[i];
            let step = next_move(&self.grid, from, self.pacman, &mut self.rng);
            moves.push(step);
            i += 1;
        }
        moves
    }

    /// Advances the session by `elapsed` microseconds, with the moves that
    /// the adversaries make if their clock fires.
    ///
    /// The adversaries' clock runs always; where it fires, the adversaries
    /// make `moves`. The player's clock runs only while the player is not
    /// halted; where it fires, the player tries to move. Then the session is
    /// reset if the player shares its cell with an adversary.
    pub fn advance(&mut self, elapsed: u64, moves: &Vec<(i32, i32)>)
        requires
            old(self).wf(),
            clock_fires(old(self)@.adversary_clock, GHOST_MOVE_INTERVAL, elapsed) ==> old(
                self,
            ).moves_legal(moves@),
        ensures
            final(self).wf(),
            final(self)@ == after_update(old(self)@, elapsed, moves@),
            !collides(final(self)@),
    {
        let ghost before = self@;
        if tick_clock(&mut self.last_ghost_update, GHOST_MOVE_INTERVAL, elapsed) {
            self.move_adversaries(moves);
        }
        let ghost first = self@;
        assert(first == after_adversary_tick(before, elapsed, moves@)) by {
            assert(first.adversaries =~= after_adversary_tick(before, elapsed, moves@).adversaries);
        }
        if !self.stopped {
            if tick_clock(&mut self.last_pacman_update, PACMAN_MOVE_INTERVAL, elapsed) {
                self.step_player();
            }
        }
        self.check_collision();
    }

    /// Advances the session by `elapsed` microseconds: as `advance` does,
    /// with the moves that are drawn for the adversaries by `next_move` if
    /// their clock fires.
    pub fn update(&mut self, elapsed: u64)
        requires
            old(self).wf(),
        ensures
            final(self).wf(),
            !collides(final(self)@),
            exists|moves: Seq<(i32, i32)>|
                {
                    &&& clock_fires(old(self)@.adversary_clock, GHOST_MOVE_INTERVAL, elapsed)
                        ==> old(self).moves_drawn(moves) && old(self).moves_legal(moves)
                    &&& final(self)@ == #[trigger] after_update(old(self)@, elapsed, moves)
                },
    {
        let moves = if elapsed >= GHOST_MOVE_INTERVAL - self.last_ghost_update {
            self.plan_moves()
        } else {
            Vec::new()
        };
        self.advance(elapsed, &moves);
    }
}

/// No adversary spawns where the player does.
pub proof fn lemma_spawns_apart()
    ensures
        forall|i: int|
            0 <= i < adversary_spawns().len() ==> #[trigger] adversary_spawns()[i]
                != player_spawn(),
{
}

/// An adversary that moves as `next_move` may have it never ends on a
/// wall, unless it stood on one and stayed: after the adversaries moved, the
/// cell of each that stood on a cell that is not a wall, or that took a
/// step, is not a wall.
pub proof fn lemma_adversary_avoids_walls(game: &PacmanGame, moves: Seq<(i32, i32)>, i: int)
    requires
        game.wf(),
        game.moves_drawn(moves),
        0 <= i < game@.adversaries.len(),
        moves[i] != stay() || game.maze().at(
            game@.adversaries[i].0 as int,
            game@.adversaries[i].1 as int,
        ) != Cell::Wall,
    ensures
        game.moves_legal(moves),
        ({
            let after = after_adversary_moves(game@, moves);
            &&& game.maze().in_bounds(after.adversaries[i].0 as int, after.adversaries[i].1 as int)
            &&& after.cells[after.adversaries[i].1 as int][after.adversaries[i].0 as int]
                != Cell::Wall
        }),
{
    assert forall|j: int| 0 <= j < moves.len() implies {
        ||| #[trigger] moves[j] == stay()
        ||| is_unit_step(moves[j]) && is_legal(game.maze(), cell_of(game@.adversaries[j]), moves[j])
    } by {
        lemma_may_move_legal(
            game.maze(),
            cell_of(game@.adversaries[j]),
            cell_of(game@.player),
            moves[j],
        );
    }
}

/// Whenever the player shares its cell with an adversary after both clocks
/// were advanced, the update leaves the session reset: the player on its
/// spawn and halted, the adversaries on theirs, and a pellet on every cell
/// that is not a wall.
pub proof fn lemma_collision_resets(v: SessionView, elapsed: u64, moves: Seq<(i32, i32)>)
    requires
        collides(after_player_tick(after_adversary_tick(v, elapsed, moves), elapsed)),
    ensures
        ({
            let before = after_player_tick(after_adversary_tick(v, elapsed, moves), elapsed);
            let after = after_update(v, elapsed, moves);
            &&& after.player == player_spawn()
            &&& after.halted
            &&& after.direction == stay()
            &&& after.adversaries == adversary_spawns()
            &&& after.cells.len() == before.cells.len()
            &&& forall|x: int, y: int|
                0 <= y < before.cells.len() && 0 <= x < before.cells[y].len() ==> (
                #[trigger] after.cells[y][x]) == (if before.cells[y][x] == Cell::Wall {
                    Cell::Wall
                } else {
                    Cell::Pellet
                })
        }),
{
}

} // verus!
