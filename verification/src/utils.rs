use vstd::prelude::*;

use crate::game_state::{Direction, GridPos};

verus! {

/// The cell one step from `pos` in direction `dir`; a step north or west from
/// the first row or column stays where it is.
pub open spec fn advanced(pos: GridPos, dir: Direction) -> GridPos {
    match dir {
        Direction::North => GridPos { x: pos.x, y: if pos.y == 0 { 0 } else { (pos.y - 1) as u32 } },
        Direction::East => GridPos { x: (pos.x + 1) as u32, y: pos.y },
        Direction::South => GridPos { x: pos.x, y: (pos.y + 1) as u32 },
        Direction::West => GridPos { x: if pos.x == 0 { 0 } else { (pos.x - 1) as u32 }, y: pos.y },
    }
}

/// Whether a step from `pos` in direction `dir` would leave the range of `u32`.
pub open spec fn step_overflows(pos: GridPos, dir: Direction) -> bool {
    ||| dir == Direction::East && pos.x == u32::MAX
    ||| dir == Direction::South && pos.y == u32::MAX
}

/// Moves `pos` one cell in direction `dir`, saturating at zero.
pub fn advance_pos_in_direction(pos: GridPos, dir: Direction) -> (res: GridPos)
    requires
        !step_overflows(pos, dir),
    ensures
        res == advanced(pos, dir),
{
    let (dest_x, dest_y) = match dir {
        Direction::North => (None, Some(pos.y.saturating_sub(1))),
        Direction::East => (Some(pos.x + 1), None),
        Direction::South => (None, Some(pos.y + 1)),
        Direction::West => (Some(pos.x.saturating_sub(1)), None),
    };

    let new_pos_x = dest_x.unwrap_or(pos.x);
    let new_pos_y = dest_y.unwrap_or(pos.y);

    GridPos { x: new_pos_x, y: new_pos_y }
}

/// Stepping one way and then back returns to the start, unless the first step
/// was stopped at the north or west border.
pub proof fn lemma_step_back(pos: GridPos, dir: Direction)
    requires
        !step_overflows(pos, dir),
        dir == Direction::North ==> pos.y > 0,
        dir == Direction::West ==> pos.x > 0,
    ensures
        advanced(advanced(pos, dir), opposite(dir)) == pos,
        !step_overflows(advanced(pos, dir), opposite(dir)),
{
}

/// The direction pointing the other way.
pub open spec fn opposite(dir: Direction) -> Direction {
    match dir {
        Direction::North => Direction::South,
        Direction::East => Direction::West,
        Direction::South => Direction::North,
        Direction::West => Direction::East,
    }
}

/// A step changes only the coordinate along its direction, by exactly one
/// cell in the direction's sense: north and south keep `x`, east and west keep
/// `y`; east and south always add one; north and west take one away, except
/// from the first row or column, where the position stays as it is.
pub proof fn lemma_step_axes(pos: GridPos, dir: Direction)
    requires
        !step_overflows(pos, dir),
    ensures
        dir == Direction::North || dir == Direction::South ==> advanced(pos, dir).x == pos.x,
        dir == Direction::East || dir == Direction::West ==> advanced(pos, dir).y == pos.y,
        dir == Direction::East ==> advanced(pos, dir).x == pos.x + 1,
        dir == Direction::South ==> advanced(pos, dir).y == pos.y + 1,
        dir == Direction::North && pos.y > 0 ==> advanced(pos, dir).y == pos.y - 1,
        dir == Direction::West && pos.x > 0 ==> advanced(pos, dir).x == pos.x - 1,
        dir == Direction::North && pos.y == 0 ==> advanced(pos, dir) == pos,
        dir == Direction::West && pos.x == 0 ==> advanced(pos, dir) == pos,
{
}

} // verus!
