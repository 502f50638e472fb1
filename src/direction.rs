use vstd::prelude::*;

verus! {

/// The eight compass directions on the board. North increases the row,
/// east increases the column.
#[derive(Clone, Copy, PartialEq, Eq, Structural, Debug)]
pub enum Direction {
    N,
    NE,
    E,
    SE,
    S,
    SW,
    W,
    NW,
}

/// Column offset of one step in direction `d`.
pub open spec fn dcol(d: Direction) -> int {
    match d {
        Direction::N => 0,
        Direction::NE => 1,
        Direction::E => 1,
        Direction::SE => 1,
        Direction::S => 0,
        Direction::SW => -1,
        Direction::W => -1,
        Direction::NW => -1,
    }
}

/// Row offset of one step in direction `d`.
pub open spec fn drow(d: Direction) -> int {
    match d {
        Direction::N => 1,
        Direction::NE => 1,
        Direction::E => 0,
        Direction::SE => -1,
        Direction::S => -1,
        Direction::SW => -1,
        Direction::W => 0,
        Direction::NW => 1,
    }
}

/// The direction pointing the other way.
pub open spec fn opposite(d: Direction) -> Direction {
    match d {
        Direction::N => Direction::S,
        Direction::NE => Direction::SW,
        Direction::E => Direction::W,
        Direction::SE => Direction::NW,
        Direction::S => Direction::N,
        Direction::SW => Direction::NE,
        Direction::W => Direction::E,
        Direction::NW => Direction::SE,
    }
}

/// The (column, row) offset of one step in direction `d`.
pub fn deltas(d: Direction) -> (r: (i8, i8))
    ensures
        r.0 as int == dcol(d),
        r.1 as int == drow(d),
{
    match d {
        Direction::N => (0, 1),
        Direction::NE => (1, 1),
        Direction::E => (1, 0),
        Direction::SE => (1, -1),
        Direction::S => (0, -1),
        Direction::SW => (-1, -1),
        Direction::W => (-1, 0),
        Direction::NW => (-1, 1),
    }
}

} // verus!
