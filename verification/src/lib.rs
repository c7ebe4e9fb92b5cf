//! Mazes on a square grid of odd side: carving a perfect maze, searching it with one
//! agent depth-first, and searching it with a swarm of agents that fork at every junction.
//!
//! - [`grid`]: the cell-state matrix, its bounds-checked access and its neighbours.
//! - [`paths`]: walks over open cells, connectivity, and what makes a maze perfect.
//! - [`generator`]: the carver. What it carves is a perfect maze whatever orders it draws,
//!   and is the maze of the model for the orders it drew.
//! - [`solver`]: the depth-first search, one marking at a time. It finds a way exactly when
//!   there is one.
//! - [`agents`]: the multi-agent search, one tick at a time. It has a winner exactly when
//!   there is a way.
//!
//! Every search owns its grid while it runs and hands it back at the end, so that a caller
//! can draw the grid between two steps but cannot change it.

pub mod agents;
pub mod generator;
pub mod grid;
pub mod paths;
pub mod solver;
