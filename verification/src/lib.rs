//! Turn scheduling for a fleet of ships on a wrap-around grid.
//!
//! Every turn each ship of the fleet receives exactly one command. The
//! occupancy tracker ([`navi::Navi`]) records which cell is held by which
//! ship, the decision engine ([`ship::Ship`]) proposes a move for one ship,
//! and the turn driver ([`turn::Turn`]) commits the proposals one by one,
//! waking a ship that waited for a cell as soon as the cell's holder has
//! moved.
//!
//! Each of the three has a mathematical model ([`navi::NaviModel`], the
//! decision functions of [`ship::Ship`], [`turn::TurnModel`]); the
//! executable functions are specified by the models, and the laws of the
//! scheduler are proved of the models.
pub mod command;
pub mod direction;
pub mod game_map;
pub mod ids;
pub mod navi;
pub mod peak;
pub mod position;
pub mod ship;
pub mod turn;
