//! A multiplayer maze game core: a procedurally generated perfect maze
//! (a spanning tree over a square grid of cells), the adjacency model shared
//! by generation and movement validation, a game session with a player
//! roster, and the text protocol that drives it.

pub mod custom_events;
pub mod direction;
pub mod game;
pub mod maze;
pub mod rng;
