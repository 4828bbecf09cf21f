//! The eight discrete direction codes used by backlink rasters: each code is
//! a power of two and names one of the eight neighbours of a cell.

use vstd::prelude::*;

verus! {

/// One of the eight compass neighbours of a cell.
#[derive(Clone, Copy, PartialEq, Eq, Structural, Debug)]
pub enum Direction {
    NorthEast,
    East,
    SouthEast,
    South,
    SouthWest,
    West,
    NorthWest,
    North,
}

/// Column offset of one step in direction `d`.
pub open spec fn delta_col(d: Direction) -> int {
    match d {
        Direction::NorthEast => 1,
        Direction::East => 1,
        Direction::SouthEast => 1,
        Direction::South => 0,
        Direction::SouthWest => -1,
        Direction::West => -1,
        Direction::NorthWest => -1,
        Direction::North => 0,
    }
}

/// Row offset of one step in direction `d` (rows grow southward).
pub open spec fn delta_row(d: Direction) -> int {
    match d {
        Direction::NorthEast => -1,
        Direction::East => 0,
        Direction::SouthEast => 1,
        Direction::South => 1,
        Direction::SouthWest => 1,
        Direction::West => 0,
        Direction::NorthWest => -1,
        Direction::North => -1,
    }
}

/// The direction named by a raster cell value. Only the eight power-of-two
/// codes name a direction; a nodata, non-positive or unlisted value has no
/// outgoing edge.
pub open spec fn spec_decode(code: int) -> Option<Direction> {
    if code == 1 {
        Some(Direction::NorthEast)
    } else if code == 2 {
        Some(Direction::East)
    } else if code == 4 {
        Some(Direction::SouthEast)
    } else if code == 8 {
        Some(Direction::South)
    } else if code == 16 {
        Some(Direction::SouthWest)
    } else if code == 32 {
        Some(Direction::West)
    } else if code == 64 {
        Some(Direction::NorthWest)
    } else if code == 128 {
        Some(Direction::North)
    } else {
        None
    }
}

/// Decodes a cell value into a direction, exactly per the code table.
pub fn decode(code: i64) -> (d: Option<Direction>)
    ensures
        d == spec_decode(code as int),
{
    if code == 1 {
        Some(Direction::NorthEast)
    } else if code == 2 {
        Some(Direction::East)
    } else if code == 4 {
        Some(Direction::SouthEast)
    } else if code == 8 {
        Some(Direction::South)
    } else if code == 16 {
        Some(Direction::SouthWest)
    } else if code == 32 {
        Some(Direction::West)
    } else if code == 64 {
        Some(Direction::NorthWest)
    } else if code == 128 {
        Some(Direction::North)
    } else {
        None
    }
}

/// The `(column, row)` offset of one step in direction `d`.
pub fn offset(d: Direction) -> (o: (i64, i64))
    ensures
        o.0 == delta_col(d),
        o.1 == delta_row(d),
{
    match d {
        Direction::NorthEast => (1, -1),
        Direction::East => (1, 0),
        Direction::SouthEast => (1, 1),
        Direction::South => (0, 1),
        Direction::SouthWest => (-1, 1),
        Direction::West => (-1, 0),
        Direction::NorthWest => (-1, -1),
        Direction::North => (0, -1),
    }
}

} // verus!
