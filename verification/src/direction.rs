//! The five moves a ship can make in one turn.
use vstd::prelude::*;

verus! {

/// A cardinal step, or no step at all.
#[derive(Copy, Clone, Debug, PartialEq, Eq, Structural, Hash)]
pub enum Direction {
    North,
    East,
    South,
    West,
    Still,
}

impl Direction {
    /// The change in `x` that one step in this direction makes.
    pub open spec fn dx(self) -> int {
        match self {
            Direction::East => 1,
            Direction::West => -1,
            _ => 0,
        }
    }

    /// The change in `y` that one step in this direction makes.
    pub open spec fn dy(self) -> int {
        match self {
            Direction::North => -1,
            Direction::South => 1,
            _ => 0,
        }
    }

    /// The four cardinal directions, in the order in which neighbours are
    /// inspected.
    pub open spec fn cardinals() -> Seq<Direction> {
        seq![Direction::North, Direction::South, Direction::East, Direction::West]
    }

    /// All five directions: the cardinals, then `Still`.
    pub open spec fn all() -> Seq<Direction> {
        seq![
            Direction::North,
            Direction::South,
            Direction::East,
            Direction::West,
            Direction::Still,
        ]
    }

    /// The two directions at a right angle to this one; none for `Still`.
    pub open spec fn orthogonal(self) -> Seq<Direction> {
        match self {
            Direction::North | Direction::South => seq![Direction::East, Direction::West],
            Direction::East | Direction::West => seq![Direction::North, Direction::South],
            Direction::Still => Seq::empty(),
        }
    }

    pub fn get_all_cardinals() -> (r: Vec<Direction>)
        ensures
            r@ == Self::cardinals(),
    {
        let r = vec![Direction::North, Direction::South, Direction::East, Direction::West];
        assert(r@ =~= Self::cardinals());
        r
    }

    pub fn get_all() -> (r: Vec<Direction>)
        ensures
            r@ == Self::all(),
    {
        let r = vec![
            Direction::North,
            Direction::South,
            Direction::East,
            Direction::West,
            Direction::Still,
        ];
        assert(r@ =~= Self::all());
        r
    }

    pub fn get_orthogonal(&self) -> (r: Vec<Direction>)
        ensures
            r@ == self.orthogonal(),
    {
        let r = match self {
            Direction::North | Direction::South => vec![Direction::East, Direction::West],
            Direction::East | Direction::West => vec![Direction::North, Direction::South],
            Direction::Still => Vec::new(),
        };
        assert(r@ =~= self.orthogonal());
        r
    }
}

} // verus!
