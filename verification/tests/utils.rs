use tekfor::game_state::{Direction, GridPos};
use tekfor::utils::advance_pos_in_direction;

#[test]
fn advance_moves_one_cell() {
    let pos = GridPos { x: 3, y: 5 };
    assert_eq!(advance_pos_in_direction(pos, Direction::North), GridPos { x: 3, y: 4 });
    assert_eq!(advance_pos_in_direction(pos, Direction::East), GridPos { x: 4, y: 5 });
    assert_eq!(advance_pos_in_direction(pos, Direction::South), GridPos { x: 3, y: 6 });
    assert_eq!(advance_pos_in_direction(pos, Direction::West), GridPos { x: 2, y: 5 });
}

#[test]
fn advance_stops_at_north_and_west_borders() {
    let origin = GridPos { x: 0, y: 0 };
    assert_eq!(advance_pos_in_direction(origin, Direction::North), origin);
    assert_eq!(advance_pos_in_direction(origin, Direction::West), origin);
}

#[test]
fn advance_then_back_returns() {
    let pos = GridPos { x: 7, y: 2 };
    let there = advance_pos_in_direction(pos, Direction::South);
    assert_eq!(advance_pos_in_direction(there, Direction::North), pos);
    let there = advance_pos_in_direction(pos, Direction::West);
    assert_eq!(advance_pos_in_direction(there, Direction::East), pos);
}
