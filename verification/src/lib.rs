//! Grid-world game logic: entities on a grid moved by commands, the
//! parenthesis puzzles used by lock picking, and the decisions of the game screens.

pub mod game_state;
pub mod utils;
pub mod lock_picking;
pub mod lockpicking;
mod text;
pub mod ecs;
pub mod states;
