use halite_navi::direction::Direction;
use halite_navi::game_map::{ring_steps, wrap_axis, GameMap};
use halite_navi::ids::{PlayerId, ShipId};
use halite_navi::navi::Navi;
use halite_navi::position::Position;
use halite_navi::ship::Ship;

fn at(x: i32, y: i32) -> Position {
    Position { x, y }
}

fn flat(width: usize, height: usize, halite: usize) -> GameMap {
    GameMap::new(width, height, vec![vec![halite; width]; height]).unwrap()
}

#[test]
fn offsets_follow_the_compass() {
    let p = at(3, 4);
    assert_eq!(p.directional_offset(Direction::Still), at(3, 4));
    assert_eq!(p.directional_offset(Direction::North), at(3, 3));
    assert_eq!(p.directional_offset(Direction::South), at(3, 5));
    assert_eq!(p.directional_offset(Direction::East), at(4, 4));
    assert_eq!(p.directional_offset(Direction::West), at(2, 4));
}

#[test]
fn offsets_are_not_wrapped() {
    assert_eq!(at(0, 0).directional_offset(Direction::West), at(-1, 0));
    assert_eq!(at(0, 0).directional_offset(Direction::North), at(0, -1));
}

#[test]
fn surrounding_cardinals_come_north_south_east_west() {
    assert_eq!(at(3, 4).get_surrounding_cardinals(), vec![at(3, 3), at(3, 5), at(4, 4), at(2, 4)]);
}

#[test]
fn direction_lists() {
    assert_eq!(
        Direction::get_all_cardinals(),
        vec![Direction::North, Direction::South, Direction::East, Direction::West]
    );
    assert_eq!(
        Direction::get_all(),
        vec![
            Direction::North,
            Direction::South,
            Direction::East,
            Direction::West,
            Direction::Still
        ]
    );
    assert_eq!(Direction::North.get_orthogonal(), vec![Direction::East, Direction::West]);
    assert_eq!(Direction::South.get_orthogonal(), vec![Direction::East, Direction::West]);
    assert_eq!(Direction::East.get_orthogonal(), vec![Direction::North, Direction::South]);
    assert_eq!(Direction::West.get_orthogonal(), vec![Direction::North, Direction::South]);
    assert_eq!(Direction::Still.get_orthogonal(), Vec::<Direction>::new());
}

#[test]
fn normalize_wraps_into_the_grid() {
    let navi = Navi::new(10, 8);
    assert_eq!(navi.normalize(&at(3, 4)), at(3, 4));
    assert_eq!(navi.normalize(&at(10, 8)), at(0, 0));
    assert_eq!(navi.normalize(&at(-1, -1)), at(9, 7));
    assert_eq!(navi.normalize(&at(-11, 25)), at(9, 1));
    assert_eq!(navi.normalize(&at(-10, -8)), at(0, 0));
    assert_eq!(navi.normalize(&at(i32::MIN, i32::MAX)), at(2, 7));
}

#[test]
fn normalize_is_idempotent_and_in_range() {
    let navi = Navi::new(7, 5);
    for x in -20..20 {
        for y in -20..20 {
            let once = navi.normalize(&at(x, y));
            assert!(0 <= once.x && once.x < 7);
            assert!(0 <= once.y && once.y < 5);
            assert_eq!(navi.normalize(&once), once);
        }
    }
}

#[test]
fn wrap_axis_matches_the_two_step_remainder() {
    for v in -50..50 {
        for m in 1..12 {
            let expected = ((v % m) + m) % m;
            assert_eq!(wrap_axis(v, m as usize), expected);
        }
    }
}

#[test]
fn wrap_distance_example() {
    let navi = Navi::new(10, 10);
    assert_eq!(navi.get_unsafe_moves(&at(1, 1), &at(8, 1)), vec![Direction::West]);
}

#[test]
fn unsafe_moves_take_the_shorter_way_on_each_axis() {
    let navi = Navi::new(10, 10);
    assert_eq!(navi.get_unsafe_moves(&at(1, 1), &at(3, 1)), vec![Direction::East]);
    assert_eq!(navi.get_unsafe_moves(&at(3, 1), &at(1, 1)), vec![Direction::West]);
    assert_eq!(navi.get_unsafe_moves(&at(8, 1), &at(1, 1)), vec![Direction::East]);
    assert_eq!(navi.get_unsafe_moves(&at(1, 1), &at(1, 3)), vec![Direction::South]);
    assert_eq!(navi.get_unsafe_moves(&at(1, 3), &at(1, 1)), vec![Direction::North]);
    assert_eq!(navi.get_unsafe_moves(&at(1, 1), &at(1, 9)), vec![Direction::North]);
    assert_eq!(navi.get_unsafe_moves(&at(1, 9), &at(1, 1)), vec![Direction::South]);
    assert_eq!(
        navi.get_unsafe_moves(&at(1, 1), &at(2, 2)),
        vec![Direction::East, Direction::South]
    );
    assert_eq!(
        navi.get_unsafe_moves(&at(9, 9), &at(0, 0)),
        vec![Direction::East, Direction::South]
    );
}

#[test]
fn unsafe_moves_are_empty_at_the_destination() {
    let navi = Navi::new(10, 10);
    assert_eq!(navi.get_unsafe_moves(&at(4, 4), &at(4, 4)), Vec::<Direction>::new());
    assert_eq!(navi.get_unsafe_moves(&at(4, 4), &at(14, -6)), Vec::<Direction>::new());
}

#[test]
fn unsafe_moves_prefer_the_direct_way_on_a_tie() {
    let navi = Navi::new(10, 10);
    assert_eq!(navi.get_unsafe_moves(&at(0, 0), &at(5, 0)), vec![Direction::East]);
    assert_eq!(navi.get_unsafe_moves(&at(5, 0), &at(0, 0)), vec![Direction::West]);
    assert_eq!(navi.get_unsafe_moves(&at(0, 0), &at(0, 5)), vec![Direction::South]);
    assert_eq!(navi.get_unsafe_moves(&at(0, 5), &at(0, 0)), vec![Direction::North]);
}

#[test]
fn ring_steps_is_the_shorter_way() {
    assert_eq!(ring_steps(1, 8, 10), 3);
    assert_eq!(ring_steps(8, 1, 10), 3);
    assert_eq!(ring_steps(1, 4, 10), 3);
    assert_eq!(ring_steps(0, 5, 10), 5);
    assert_eq!(ring_steps(2, 2, 10), 0);
}

#[test]
fn map_distance_wraps_on_both_axes() {
    let map = flat(10, 10, 0);
    assert_eq!(map.calculate_distance(&at(1, 1), &at(8, 1)), 3);
    assert_eq!(map.calculate_distance(&at(1, 1), &at(8, 9)), 5);
    assert_eq!(map.calculate_distance(&at(0, 0), &at(5, 5)), 10);
    assert_eq!(map.calculate_distance(&at(-1, -1), &at(9, 9)), 0);
}

#[test]
fn map_rejects_bad_shapes() {
    assert!(GameMap::new(0, 1, vec![vec![]]).is_none());
    assert!(GameMap::new(1, 0, vec![]).is_none());
    assert!(GameMap::new(2, 2, vec![vec![1, 2]]).is_none());
    assert!(GameMap::new(2, 2, vec![vec![1, 2], vec![3]]).is_none());
    assert!(GameMap::new(2, 2, vec![vec![1, 2], vec![3, 4]]).is_some());
}

#[test]
fn map_reads_cells_by_wrapped_position() {
    let map = GameMap::new(3, 2, vec![vec![1, 2, 3], vec![4, 5, 6]]).unwrap();
    assert_eq!(map.width(), 3);
    assert_eq!(map.height(), 2);
    assert_eq!(map.at_position(&at(0, 0)), 1);
    assert_eq!(map.at_position(&at(2, 0)), 3);
    assert_eq!(map.at_position(&at(1, 1)), 5);
    assert_eq!(map.at_position(&at(-1, -1)), 6);
    assert_eq!(map.at_position(&at(3, 2)), 1);
    assert_eq!(map.normalize(&at(-1, -1)), at(2, 1));
    let ship =
        Ship { owner: PlayerId(0), id: ShipId(1), position: at(4, 1), halite: 0, max_halite: 1000 };
    assert_eq!(map.at_entity(&ship), 5);
}

#[test]
fn min_and_max_halite() {
    let map = GameMap::new(3, 2, vec![vec![7, 2, 3], vec![4, 9, 6]]).unwrap();
    assert_eq!(map.find_min_max(), (2, 9));
    assert_eq!(flat(4, 4, 5).find_min_max(), (5, 5));
}

#[test]
fn max_distance_over_ships() {
    let map = flat(10, 10, 0);
    let home = at(0, 0);
    let ship = |id: usize, x: i32, y: i32| Ship {
        owner: PlayerId(0),
        id: ShipId(id),
        position: at(x, y),
        halite: 0,
        max_halite: 1000,
    };
    assert_eq!(map.calculate_max_distance(&vec![], &home), 0);
    assert_eq!(map.calculate_max_distance(&vec![ship(1, 0, 0)], &home), 0);
    assert_eq!(
        map.calculate_max_distance(&vec![ship(1, 1, 1), ship(2, 5, 5), ship(3, 9, 9)], &home),
        10
    );
    assert_eq!(map.calculate_max_distance(&vec![ship(1, 9, 0), ship(2, 2, 1)], &home), 3);
}

#[test]
fn every_unsafe_move_brings_the_ship_one_step_nearer() {
    let navi = Navi::new(7, 5);
    let map = flat(7, 5, 0);
    for sx in -3..10 {
        for sy in -3..8 {
            for dx in 0..7 {
                for dy in 0..5 {
                    let source = at(sx, sy);
                    let destination = at(dx, dy);
                    let moves = navi.get_unsafe_moves(&source, &destination);
                    let distance = map.calculate_distance(&source, &destination);
                    assert!(moves.len() <= 2);
                    assert_eq!(moves.is_empty(), distance == 0);
                    for d in moves {
                        assert_ne!(d, Direction::Still);
                        let next = source.directional_offset(d);
                        assert_eq!(map.calculate_distance(&next, &destination) + 1, distance);
                    }
                }
            }
        }
    }
}
