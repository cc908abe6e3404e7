//! A grid-based maze chase: maze carving, shortest-path pursuit with
//! deliberate imperfection, and the tick-driven session around them.
//! Beside it, the rules of a game of snake.

pub mod adversary;
pub mod carving;
pub mod game;
pub mod grid;
pub mod maze;
pub mod path;
pub mod pathfinder;
pub mod random;
pub mod search;
pub mod snake;
pub mod table;
