use vstd::prelude::*;

verus! {

/// One move of the blank cell. The root of a search carries no direction,
/// which callers model as `Option<Direction>` rather than a sentinel variant.
#[derive(Clone, Copy, Debug, PartialEq, Eq, Structural)]
pub enum Direction {
    Left,
    Right,
    Up,
    Down,
}

/// The move that undoes `d`.
pub open spec fn opposite(d: Direction) -> Direction {
    match d {
        Direction::Left => Direction::Right,
        Direction::Right => Direction::Left,
        Direction::Up => Direction::Down,
        Direction::Down => Direction::Up,
    }
}

} // verus!
