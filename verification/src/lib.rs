//! A two-player, turn-based board game engine on a configurable N-by-N grid:
//! the board model, the move-validation and turn-advancement protocol, and the
//! win/draw detection that runs after each placed mark. The engine does no
//! I/O; a driver feeds it coordinates and renders what it returns.
pub mod board;
pub mod game;
pub mod input;
pub mod laws;
pub mod rules;
