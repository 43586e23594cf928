//! Twisty puzzles of any dimension and layer count, modelled as a group
//! action of signed axis permutations on piece positions, with a move
//! controller that keeps undo/redo history, scramble tracking and animation
//! progress.
//!
//! - `common`: signs and twist directions.
//! - `orientation`: the orientation group and its action on layer vectors.
//! - `topology`: puzzle types, pieces, faces, stickers and twists.
//! - `state`: puzzle states and the cycle algorithm that applies twists.
//! - `controller`: the move controller and its state machine.
//! - `cache`: a memo cell for derived geometry.

pub mod common;
pub mod orientation;
pub mod topology;
pub mod state;
pub mod controller;
pub mod cache;
