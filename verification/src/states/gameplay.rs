use vstd::prelude::*;

use crate::game_state::Direction;

verus! {

/// The phase of a turn: the world's logic runs once, then the game waits for
/// the player's action, then the moves are animated until they finish.
#[derive(Clone, Copy, Debug, PartialEq, Eq, Structural)]
pub enum TickState {
    ProcessingLogic,
    WaitingForAction,
    Animating,
}

/// The phase after one frame in `state`: logic always hands over to waiting;
/// waiting ends once an input was taken and the queued actions were carried
/// out; animating goes on while an animation is active and then starts the
/// next turn.
pub fn next_tick(state: TickState, input_taken: bool, actions_done: bool, animating: bool) -> (r:
    TickState)
    ensures
        r == (match state {
            TickState::ProcessingLogic => TickState::WaitingForAction,
            TickState::WaitingForAction => if input_taken && actions_done {
                TickState::Animating
            } else {
                TickState::WaitingForAction
            },
            TickState::Animating => if animating {
                TickState::Animating
            } else {
                TickState::ProcessingLogic
            },
        }),
{
    match state {
        TickState::ProcessingLogic => TickState::WaitingForAction,
        TickState::WaitingForAction => {
            if input_taken && actions_done {
                TickState::Animating
            } else {
                TickState::WaitingForAction
            }
        },
        TickState::Animating => {
            if animating {
                TickState::Animating
            } else {
                TickState::ProcessingLogic
            }
        },
    }
}

/// The keys that gameplay reads.
#[derive(Clone, Copy, Debug, PartialEq, Eq, Structural)]
pub enum Key {
    W,
    A,
    S,
    D,
    Other,
}

/// The move that a key asks for: W north, A west, S south, D east.
pub open spec fn key_direction(key: Key) -> Option<Direction> {
    match key {
        Key::W => Some(Direction::North),
        Key::A => Some(Direction::West),
        Key::S => Some(Direction::South),
        Key::D => Some(Direction::East),
        Key::Other => None,
    }
}

/// The direction of the player's move for `key`, if it asks for one.
pub fn direction_for_key(key: Key) -> (r: Option<Direction>)
    ensures
        r == key_direction(key),
{
    match key {
        Key::W => Some(Direction::North),
        Key::A => Some(Direction::West),
        Key::S => Some(Direction::South),
        Key::D => Some(Direction::East),
        Key::Other => None,
    }
}

/// What gameplay makes of the last key pressed: `None` when no key was pressed
/// or an animation is still active (the input is not taken); otherwise the
/// input is taken, with the player's move for the key if it asks for one.
pub fn take_input(key: Option<Key>, animation_active: bool) -> (r: Option<Option<Direction>>)
    ensures
        r == (match key {
            None => None,
            Some(k) => if animation_active {
                None
            } else {
                Some(key_direction(k))
            },
        }),
{
    match key {
        None => None,
        Some(k) => {
            if animation_active {
                None
            } else {
                Some(direction_for_key(k))
            }
        },
    }
}

} // verus!
