use tekfor::game_state::{Components, Direction, Grid, GridPos, State};

fn position_of(state: &State, id: u64) -> Option<GridPos> {
    state.position(id)
}

fn walker(x: u32, y: u32) -> Components {
    Components { position: Some(GridPos { x, y }), movable: true, on_grid: true, solid: false }
}

fn wall(x: u32, y: u32) -> Components {
    Components { position: Some(GridPos { x, y }), movable: false, on_grid: true, solid: true }
}

#[test]
fn new_grid_has_empty_cells() {
    let grid = Grid::new(3, 2);
    assert_eq!(grid.width(), 3);
    assert_eq!(grid.height(), 2);
    for x in 0..3 {
        for y in 0..2 {
            assert_eq!(grid.get_cell(x, y), Some(&[][..]));
        }
    }
    assert_eq!(grid.get_cell(3, 0), None);
    assert_eq!(grid.get_cell(0, 2), None);
}

#[test]
fn spawned_entities_are_listed_in_their_cell() {
    let mut state = State::with_grid_size(3, 3);
    let a = state.spawn_entity(walker(1, 1));
    let b = state.spawn_entity(wall(1, 1));
    let off = state.spawn_entity(walker(7, 7));
    let floating = state.spawn_entity(Components { position: Some(GridPos { x: 0, y: 0 }), movable: true, on_grid: false, solid: false });
    assert_eq!(state.grid().get_cell(1, 1), Some(&[a, b][..]));
    assert_eq!(state.grid().get_cell(0, 0), Some(&[][..]));
    assert_eq!(position_of(&state, off), Some(GridPos { x: 7, y: 7 }));
    assert_eq!(position_of(&state, floating), Some(GridPos { x: 0, y: 0 }));
    assert_eq!(state.entity_count(), 4);
    assert_ne!(a, b);
}

#[test]
fn player_moves_one_cell_at_a_time() {
    let mut state = State::with_grid_size(3, 3);
    let player = state.spawn_player(walker(0, 0));
    state.move_player(Direction::South);
    state.move_player(Direction::East);
    assert_eq!(position_of(&state, player), Some(GridPos { x: 1, y: 1 }));
    assert_eq!(state.grid().get_cell(0, 0), Some(&[][..]));
    assert_eq!(state.grid().get_cell(1, 1), Some(&[player][..]));
}

#[test]
fn moves_are_clamped_to_the_grid() {
    let mut state = State::with_grid_size(3, 3);
    let player = state.spawn_player(walker(0, 0));
    state.move_player(Direction::North);
    state.move_player(Direction::West);
    assert_eq!(position_of(&state, player), Some(GridPos { x: 0, y: 0 }));
    state.move_entity(player, 10, 10);
    assert_eq!(position_of(&state, player), Some(GridPos { x: 2, y: 2 }));
    assert_eq!(state.grid().get_cell(2, 2), Some(&[player][..]));
    state.move_player(Direction::East);
    assert_eq!(position_of(&state, player), Some(GridPos { x: 2, y: 2 }));
}

#[test]
fn solid_entities_block_moves() {
    let mut state = State::with_grid_size(3, 3);
    let player = state.spawn_player(walker(0, 0));
    let w = state.spawn_entity(wall(1, 0));
    state.move_player(Direction::East);
    assert_eq!(position_of(&state, player), Some(GridPos { x: 0, y: 0 }));
    assert_eq!(state.grid().get_cell(1, 0), Some(&[w][..]));
    state.move_player(Direction::South);
    assert_eq!(position_of(&state, player), Some(GridPos { x: 0, y: 1 }));
}

#[test]
fn immovable_entities_stay() {
    let mut state = State::with_grid_size(3, 3);
    let w = state.spawn_entity(wall(1, 1));
    state.move_entity(w, 0, 0);
    assert_eq!(position_of(&state, w), Some(GridPos { x: 1, y: 1 }));
    assert_eq!(state.grid().get_cell(1, 1), Some(&[w][..]));
}

#[test]
fn entity_off_the_grid_joins_it_when_moved() {
    let mut state = State::with_grid_size(3, 3);
    let off = state.spawn_entity(walker(9, 0));
    state.move_entity(off, 9, 1);
    assert_eq!(position_of(&state, off), Some(GridPos { x: 2, y: 1 }));
    assert_eq!(state.grid().get_cell(2, 1), Some(&[off][..]));
}

#[test]
fn without_player_nothing_moves() {
    let mut state = State::with_grid_size(2, 2);
    let a = state.spawn_entity(walker(0, 0));
    state.move_player(Direction::East);
    assert_eq!(position_of(&state, a), Some(GridPos { x: 0, y: 0 }));
}

#[test]
fn try_move_refuses_an_overflowing_step() {
    let mut state = State::with_grid_size(2, 2);
    let player = state.spawn_player(walker(u32::MAX, 0));
    assert!(!state.try_move_player(Direction::East));
    assert_eq!(position_of(&state, player), Some(GridPos { x: u32::MAX, y: 0 }));
    assert!(state.try_move_player(Direction::West));
    assert_eq!(position_of(&state, player), Some(GridPos { x: 1, y: 0 }));
}

#[test]
fn spawned_components_are_stored() {
    let mut state = State::with_grid_size(3, 3);
    let player = state.spawn_player(walker(0, 0));
    let crate_box = state.spawn_entity(wall(1, 0));
    let bare = state.spawn_entity(Components { position: None, movable: true, on_grid: true, solid: false });
    assert_eq!(position_of(&state, bare), None);
    assert_eq!(position_of(&state, crate_box), Some(GridPos { x: 1, y: 0 }));
    assert_eq!(state.grid().get_cell(1, 0), Some(&[crate_box][..]));
    // The crate is solid and does not move; the bare entity has no position to move from.
    state.move_entity(crate_box, 2, 2);
    state.move_entity(bare, 2, 2);
    assert_eq!(position_of(&state, crate_box), Some(GridPos { x: 1, y: 0 }));
    assert_eq!(position_of(&state, bare), None);
    state.move_player(Direction::East);
    assert_eq!(position_of(&state, player), Some(GridPos { x: 0, y: 0 }));
    assert_eq!(position_of(&state, u64::MAX), None);
    assert_eq!(state.entity_count(), 3);
}

#[test]
fn the_last_spawned_player_is_the_one_moved() {
    let mut state = State::with_grid_size(4, 4);
    let first = state.spawn_player(walker(0, 0));
    let second = state.spawn_player(walker(2, 2));
    state.move_player(Direction::North);
    assert_eq!(position_of(&state, first), Some(GridPos { x: 0, y: 0 }));
    assert_eq!(position_of(&state, second), Some(GridPos { x: 2, y: 1 }));
    assert_eq!(state.grid().get_cell(2, 1), Some(&[second][..]));
    assert_eq!(state.grid().get_cell(0, 0), Some(&[first][..]));
}

#[test]
fn an_immovable_player_stays_put() {
    let mut state = State::with_grid_size(3, 3);
    let player = state.spawn_player(wall(1, 1));
    state.move_player(Direction::East);
    assert_eq!(position_of(&state, player), Some(GridPos { x: 1, y: 1 }));
    assert_eq!(state.grid().get_cell(1, 1), Some(&[player][..]));
}
