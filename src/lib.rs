//! Dice-notation evaluation: validate an expression such as `2d6+3`, roll its dice
//! (with exploding rerolls) and render a breakdown and total.
pub mod dice;
pub mod engine;
pub mod laws;
pub mod notation;
pub mod text;

pub use dice::{Dice, Explosion};
pub use engine::{evaluate, roll_dice};
