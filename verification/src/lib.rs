//! A falling-block puzzle engine: the playfield with its line clearing, the
//! falling piece with its collision, rotation and locking rules, and the
//! decisions of the simulation loop that drives both.
//!
//! - `coord`: cell addresses.
//! - `field`: the playfield, its mathematical model `Grid`, and what
//!   putting blocks into it does.
//! - `shape`: the seven shapes and their quarter turns.
//! - `piece`: the falling piece, and the interface `IField` through which it
//!   reads and fills a field.
//! - `landing`: what holds of pieces in the playfield: that they keep their
//!   shape, how far they fall, when they lock and what they leave behind.
//! - `game`: the state that the simulation loop owns and its tick, and the
//!   switchboard between the loop and its callers.
//! - `sound`: the samples of the music that goes with the game.
//!
//! Threads, the window and the sound device are left to the programs that
//! use this library.

pub mod coord;
pub mod field;
pub mod shape;
pub mod piece;
pub mod landing;
pub mod game;
pub mod sound;
