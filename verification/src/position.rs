//! Grid coordinates.
use crate::direction::Direction;
use vstd::prelude::*;

verus! {

/// A cell coordinate. Coordinates may lie outside the grid; they name the
/// cell they wrap around to.
#[derive(Copy, Clone, Debug, PartialEq, Eq, Structural, Hash)]
pub struct Position {
    pub x: i32,
    pub y: i32,
}

impl Position {
    /// A position from which `reach` steps along either axis stay within
    /// the range of the coordinate type.
    pub open spec fn within_reach(self, reach: int) -> bool {
        &&& i32::MIN + reach <= self.x <= i32::MAX - reach
        &&& i32::MIN + reach <= self.y <= i32::MAX - reach
    }

    /// The position one step away in direction `d`, before wrapping.
    pub open spec fn offset(self, d: Direction) -> Position {
        Position { x: (self.x + d.dx()) as i32, y: (self.y + d.dy()) as i32 }
    }

    /// The four neighbours, in the order north, south, east, west.
    pub open spec fn neighbours(self) -> Seq<Position> {
        seq![
            self.offset(Direction::North),
            self.offset(Direction::South),
            self.offset(Direction::East),
            self.offset(Direction::West),
        ]
    }

    /// Whether `reach` steps along either axis stay within the range of the
    /// coordinate type.
    pub fn is_within_reach(&self, reach: i32) -> (r: bool)
        ensures
            r == self.within_reach(reach as int),
    {
        let low: i64 = i32::MIN as i64 + reach as i64;
        let high: i64 = i32::MAX as i64 - reach as i64;
        low <= self.x as i64 && self.x as i64 <= high && low <= self.y as i64 && self.y as i64
            <= high
    }

    pub fn directional_offset(&self, d: Direction) -> (r: Position)
        requires
            self.within_reach(1),
        ensures
            r == self.offset(d),
            r.x == self.x + d.dx(),
            r.y == self.y + d.dy(),
    {
        let (dx, dy): (i32, i32) = match d {
            Direction::North => (0, -1),
            Direction::South => (0, 1),
            Direction::East => (1, 0),
            Direction::West => (-1, 0),
            Direction::Still => (0, 0),
        };
        Position { x: self.x + dx, y: self.y + dy }
    }

    pub fn get_surrounding_cardinals(&self) -> (r: Vec<Position>)
        requires
            self.within_reach(1),
        ensures
            r@ == self.neighbours(),
    {
        let r = vec![
            self.directional_offset(Direction::North),
            self.directional_offset(Direction::South),
            self.directional_offset(Direction::East),
            self.directional_offset(Direction::West),
        ];
        assert(r@ =~= self.neighbours());
        r
    }
}

} // verus!
