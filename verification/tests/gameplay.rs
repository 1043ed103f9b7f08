use tekfor::game_state::Direction;
use tekfor::states::gameplay::{direction_for_key, next_tick, take_input, Key, TickState};
use tekfor::states::menu::Menu;

#[test]
fn logic_hands_over_to_waiting() {
    for input in [false, true] {
        for done in [false, true] {
            for anim in [false, true] {
                assert_eq!(
                    next_tick(TickState::ProcessingLogic, input, done, anim),
                    TickState::WaitingForAction
                );
            }
        }
    }
}

#[test]
fn waiting_ends_after_input_and_actions() {
    assert_eq!(next_tick(TickState::WaitingForAction, true, true, false), TickState::Animating);
    assert_eq!(next_tick(TickState::WaitingForAction, true, false, false), TickState::WaitingForAction);
    assert_eq!(next_tick(TickState::WaitingForAction, false, true, true), TickState::WaitingForAction);
    assert_eq!(next_tick(TickState::WaitingForAction, false, false, true), TickState::WaitingForAction);
}

#[test]
fn animation_runs_until_done() {
    assert_eq!(next_tick(TickState::Animating, true, true, true), TickState::Animating);
    assert_eq!(next_tick(TickState::Animating, false, false, false), TickState::ProcessingLogic);
}

#[test]
fn wasd_keys_move() {
    assert_eq!(direction_for_key(Key::W), Some(Direction::North));
    assert_eq!(direction_for_key(Key::A), Some(Direction::West));
    assert_eq!(direction_for_key(Key::S), Some(Direction::South));
    assert_eq!(direction_for_key(Key::D), Some(Direction::East));
    assert_eq!(direction_for_key(Key::Other), None);
}

#[test]
fn input_is_taken_only_between_animations() {
    assert_eq!(take_input(None, false), None);
    assert_eq!(take_input(Some(Key::W), true), None);
    assert_eq!(take_input(Some(Key::D), false), Some(Some(Direction::East)));
    assert_eq!(take_input(Some(Key::Other), false), Some(None));
}

#[test]
fn menu_starts_closed() {
    let _menu = Menu::default();
}
