//! A terminal maze game's core: a randomized depth-first maze carver, the
//! expansion of the carved cell graph into a playable glyph board, and the
//! state machine that moves the player and runs the countdown.
//!
//! The library is verified but for the draw of a random index, which
//! `random` leaves to the `rand` crate. Terminal drawing, key capture and
//! the threads that feed events live outside it.

pub mod cell;
pub mod maze;
pub mod random;
pub mod carving;
pub mod soundness;
pub mod carver;
pub mod generate;
pub mod board;
pub mod game_state;
pub mod laws;
pub mod route;
