//! Identifiers of ships and players.
use vstd::prelude::*;

verus! {

/// The identity of a ship, unique within one turn.
#[derive(Copy, Clone, Debug, PartialEq, Eq, Structural, Hash)]
pub struct ShipId(pub usize);

/// The identity of a player.
#[derive(Copy, Clone, Debug, PartialEq, Eq, Structural, Hash)]
pub struct PlayerId(pub usize);

} // verus!
