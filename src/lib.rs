//! Rules engine of a cooperative cable-cutting deduction game: the cable
//! catalog, dealing into hands, per-cable visibility, and the player actions.
//!
//! Cable values are fixed-point integers with one decimal digit: a cable
//! showing 4.5 carries the value 45. The last digit tells the colour.

pub mod actions;
pub mod elements;
pub mod error;
pub mod game;
pub mod player;
