//! The screens of the game and the decisions they make each frame.

pub mod gameplay;
pub mod menu;
