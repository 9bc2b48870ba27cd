use halite_navi::ids::{PlayerId, ShipId};
use halite_navi::navi::{Navi, Occupation};
use halite_navi::position::Position;
use halite_navi::ship::Ship;

fn at(x: i32, y: i32) -> Position {
    Position { x, y }
}

fn ship(owner: usize, id: usize, x: i32, y: i32) -> Ship {
    Ship { owner: PlayerId(owner), id: ShipId(id), position: at(x, y), halite: 0, max_halite: 1000 }
}

fn framed(ships: Vec<Ship>) -> Navi {
    let mut navi = Navi::new(10, 10);
    navi.update_frame(&ships, PlayerId(0));
    navi
}

#[test]
fn new_tracker_is_empty() {
    let navi = Navi::new(10, 6);
    assert_eq!(navi.width(), 10);
    assert_eq!(navi.height(), 6);
    assert!(navi.is_empty(&at(0, 0)));
    assert!(navi.is_safe(&at(0, 0)));
    assert!(!navi.is_hostile(&at(0, 0)));
    assert_eq!(navi.friend_at(&at(0, 0)), None);
    assert_eq!(navi.occupation_at(&at(0, 0)), None);
    assert!(!navi.has_ship_waiting_for(&ShipId(1)));
    assert_eq!(navi.waiting_ship(&ShipId(1)), None);
}

#[test]
fn frame_enters_friends_and_foes() {
    let navi = framed(vec![ship(0, 1, 1, 1), ship(1, 2, 2, 1)]);
    assert_eq!(navi.occupation_at(&at(1, 1)), Some(Occupation::Me(ShipId(1), false)));
    assert_eq!(navi.occupation_at(&at(2, 1)), Some(Occupation::Enemy(ShipId(2))));
    assert_eq!(navi.occupation_at(&at(3, 1)), None);
    assert_eq!(navi.friend_at(&at(1, 1)), Some(ShipId(1)));
    assert_eq!(navi.friend_at(&at(2, 1)), None);
    assert!(navi.is_hostile(&at(2, 1)));
    assert!(!navi.is_hostile(&at(1, 1)));
    assert!(!navi.is_empty(&at(1, 1)));
    assert!(navi.is_empty(&at(3, 1)));
}

#[test]
fn lookups_wrap_the_position() {
    let navi = framed(vec![ship(0, 1, 11, -9)]);
    assert_eq!(navi.occupation_at(&at(1, 1)), Some(Occupation::Me(ShipId(1), false)));
    assert_eq!(navi.occupation_at(&at(-9, 21)), Some(Occupation::Me(ShipId(1), false)));
}

#[test]
fn frame_forgets_the_turn_before() {
    let mut navi = framed(vec![ship(0, 1, 1, 1)]);
    navi.record_waiting(ShipId(1), ShipId(2));
    navi.resolve(&ship(0, 1, 1, 1), &at(1, 2));
    navi.update_frame(&vec![ship(0, 3, 4, 4)], PlayerId(0));
    assert_eq!(navi.occupation_at(&at(1, 2)), None);
    assert_eq!(navi.occupation_at(&at(1, 1)), None);
    assert_eq!(navi.occupation_at(&at(4, 4)), Some(Occupation::Me(ShipId(3), false)));
    assert!(!navi.has_ship_waiting_for(&ShipId(1)));
}

#[test]
fn later_ship_takes_a_shared_cell() {
    let navi = framed(vec![ship(0, 1, 1, 1), ship(1, 2, 1, 1)]);
    assert_eq!(navi.occupation_at(&at(1, 1)), Some(Occupation::Enemy(ShipId(2))));
    let navi = framed(vec![ship(1, 2, 1, 1), ship(0, 1, 1, 1)]);
    assert_eq!(navi.occupation_at(&at(1, 1)), Some(Occupation::Me(ShipId(1), false)));
}

#[test]
fn safety_of_cells() {
    let mut navi = framed(vec![ship(0, 1, 1, 1), ship(1, 2, 2, 1), ship(0, 3, 5, 5)]);
    assert!(navi.is_safe(&at(0, 0)));
    assert!(navi.is_safe(&at(1, 1)));
    assert!(navi.is_safe(&at(2, 1)));
    navi.record_waiting(ShipId(1), ShipId(3));
    assert!(!navi.is_safe(&at(1, 1)));
    assert!(navi.is_safe(&at(5, 5)));
    navi.resolve(&ship(0, 3, 5, 5), &at(5, 6));
    assert!(!navi.is_safe(&at(5, 6)));
    assert!(navi.is_safe(&at(5, 5)));
}

#[test]
fn resolve_round_trip() {
    let mut navi = framed(vec![ship(0, 1, 1, 1)]);
    navi.resolve(&ship(0, 1, 1, 1), &at(2, 1));
    assert_eq!(navi.occupation_at(&at(2, 1)), Some(Occupation::Me(ShipId(1), true)));
    assert_eq!(navi.occupation_at(&at(1, 1)), None);
}

#[test]
fn resolve_in_place_makes_the_cell_final() {
    let mut navi = framed(vec![ship(0, 1, 1, 1)]);
    navi.resolve(&ship(0, 1, 1, 1), &at(1, 1));
    assert_eq!(navi.occupation_at(&at(1, 1)), Some(Occupation::Me(ShipId(1), true)));
}

#[test]
fn resolve_leaves_a_cell_held_by_another() {
    let mut navi = framed(vec![ship(0, 2, 1, 1)]);
    navi.resolve(&ship(0, 1, 1, 1), &at(2, 1));
    assert_eq!(navi.occupation_at(&at(1, 1)), Some(Occupation::Me(ShipId(2), false)));
    assert_eq!(navi.occupation_at(&at(2, 1)), Some(Occupation::Me(ShipId(1), true)));
    let mut navi = framed(vec![ship(1, 1, 1, 1)]);
    navi.resolve(&ship(0, 1, 1, 1), &at(2, 1));
    assert_eq!(navi.occupation_at(&at(1, 1)), Some(Occupation::Enemy(ShipId(1))));
}

#[test]
fn resolve_wraps_the_destination() {
    let mut navi = framed(vec![ship(0, 1, 0, 0)]);
    navi.resolve(&ship(0, 1, 0, 0), &at(-1, 0));
    assert_eq!(navi.occupation_at(&at(9, 0)), Some(Occupation::Me(ShipId(1), true)));
    assert_eq!(navi.occupation_at(&at(0, 0)), None);
}

#[test]
fn resolve_keeps_other_commitments() {
    let mut navi = framed(vec![ship(0, 1, 1, 1), ship(0, 2, 3, 3)]);
    navi.resolve(&ship(0, 1, 1, 1), &at(1, 2));
    navi.resolve(&ship(0, 2, 3, 3), &at(3, 4));
    assert_eq!(navi.occupation_at(&at(1, 2)), Some(Occupation::Me(ShipId(1), true)));
    assert_eq!(navi.occupation_at(&at(3, 4)), Some(Occupation::Me(ShipId(2), true)));
}

#[test]
fn waiting_table_has_one_slot_per_blocker() {
    let mut navi = Navi::new(10, 10);
    navi.record_waiting(ShipId(1), ShipId(2));
    assert!(navi.has_ship_waiting_for(&ShipId(1)));
    assert!(!navi.has_ship_waiting_for(&ShipId(2)));
    assert_eq!(navi.waiting_ship(&ShipId(1)), Some(ShipId(2)));
    navi.record_waiting(ShipId(1), ShipId(3));
    assert_eq!(navi.waiting_ship(&ShipId(1)), Some(ShipId(3)));
    assert_eq!(navi.take_waiter(&ShipId(1)), Some(ShipId(3)));
    assert_eq!(navi.take_waiter(&ShipId(1)), None);
    assert!(!navi.has_ship_waiting_for(&ShipId(1)));
}

#[test]
fn waiting_table_keeps_other_blockers() {
    let mut navi = Navi::new(10, 10);
    navi.record_waiting(ShipId(1), ShipId(2));
    navi.record_waiting(ShipId(3), ShipId(4));
    navi.record_waiting(ShipId(5), ShipId(6));
    assert_eq!(navi.take_waiter(&ShipId(3)), Some(ShipId(4)));
    assert_eq!(navi.waiting_ship(&ShipId(1)), Some(ShipId(2)));
    assert_eq!(navi.waiting_ship(&ShipId(5)), Some(ShipId(6)));
    assert_eq!(navi.waiting_ship(&ShipId(3)), None);
}

#[test]
fn drain_returns_waiters_oldest_first() {
    let mut navi = Navi::new(10, 10);
    navi.record_waiting(ShipId(1), ShipId(2));
    navi.record_waiting(ShipId(3), ShipId(4));
    navi.record_waiting(ShipId(1), ShipId(5));
    assert_eq!(navi.drain_waiting(), vec![ShipId(5), ShipId(4)]);
    assert_eq!(navi.drain_waiting(), Vec::<ShipId>::new());
    assert!(!navi.has_ship_waiting_for(&ShipId(1)));
}

#[test]
fn clear_empties_cells_and_waiters() {
    let mut navi = framed(vec![ship(0, 1, 1, 1)]);
    navi.record_waiting(ShipId(1), ShipId(2));
    navi.clear();
    assert!(navi.is_empty(&at(1, 1)));
    assert!(!navi.has_ship_waiting_for(&ShipId(1)));
}
