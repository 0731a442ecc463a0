//! A Battlesnake move engine: board simulation, flood-fill territory analysis
//! and move selection, with their behaviour stated and proved in Verus.
pub mod board;
pub mod flood;
pub mod logic;
pub mod search;
pub mod setup;
pub mod step;
pub mod types;
