//! The commands a turn ends with.
use crate::direction::Direction;
use crate::ids::ShipId;
use vstd::prelude::*;

verus! {

/// One order to the game.
#[derive(Copy, Clone, Debug, PartialEq, Eq, Structural)]
pub enum Command {
    /// The ship takes one step, or stays with `Direction::Still`.
    Move(ShipId, Direction),
    /// The ship turns itself into a place where halite is delivered.
    Dropoff(ShipId),
    /// The shipyard builds a ship.
    Spawn,
}

impl Command {
    /// The ship that the command is addressed to, if it is addressed to one.
    pub open spec fn ship(self) -> Option<ShipId> {
        match self {
            Command::Move(id, _) => Some(id),
            Command::Dropoff(id) => Some(id),
            Command::Spawn => None,
        }
    }

    pub fn move_ship(ship_id: ShipId, direction: Direction) -> (r: Command)
        ensures
            r == Command::Move(ship_id, direction),
    {
        Command::Move(ship_id, direction)
    }

    pub fn transform_ship_into_dropoff_site(ship_id: ShipId) -> (r: Command)
        ensures
            r == Command::Dropoff(ship_id),
    {
        Command::Dropoff(ship_id)
    }

    pub fn spawn_ship() -> (r: Command)
        ensures
            r == Command::Spawn,
    {
        Command::Spawn
    }
}

} // verus!
