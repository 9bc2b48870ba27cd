use halite_navi::command::Command;
use halite_navi::direction::Direction;
use halite_navi::game_map::{GameMap, Player};
use halite_navi::ids::{PlayerId, ShipId};
use halite_navi::navi::{Navi, Occupation};
use halite_navi::position::Position;
use halite_navi::ship::{MoveDecision, Ship};
use halite_navi::turn::{
    find_order, finishing_now, next_action, plan_goal, run_turn, should_spawn, Order, ShipAction,
    Turn,
};

fn at(x: i32, y: i32) -> Position {
    Position { x, y }
}

fn ship(owner: usize, id: usize, x: i32, y: i32, halite: usize) -> Ship {
    Ship { owner: PlayerId(owner), id: ShipId(id), position: at(x, y), halite, max_halite: 1000 }
}

fn map_with(base: usize, cells: &[(usize, usize, usize)]) -> GameMap {
    let mut rows = vec![vec![base; 10]; 10];
    for &(x, y, halite) in cells {
        rows[y][x] = halite;
    }
    GameMap::new(10, 10, rows).unwrap()
}

fn player(x: i32, y: i32, halite: usize) -> Player {
    Player { id: PlayerId(0), shipyard: at(x, y), halite }
}

fn dropping(s: Ship) -> Order {
    Order { ship: s, action: ShipAction::Dropping, goal: at(0, 0) }
}

fn collecting(s: Ship, goal: Position) -> Order {
    Order { ship: s, action: ShipAction::Collecting, goal }
}

fn begin(ships: &[Ship]) -> Turn {
    Turn::begin(Navi::new(10, 10), vec![], &ships.to_vec(), PlayerId(0))
}

fn moved(id: usize, d: Direction) -> Command {
    Command::Move(ShipId(id), d)
}

fn addressee(c: &Command) -> usize {
    match c {
        Command::Move(id, _) => id.0,
        Command::Dropoff(id) => id.0,
        Command::Spawn => panic!("no ship is addressed"),
    }
}

fn landing(ships: &[Ship], c: &Command) -> Option<Position> {
    match c {
        Command::Move(id, d) => {
            let s = ships.iter().find(|s| s.id == *id).unwrap();
            let to = s.position.directional_offset(*d);
            Some(at(to.x.rem_euclid(10), to.y.rem_euclid(10)))
        }
        _ => None,
    }
}

#[test]
fn new_ship_collects() {
    let s = ship(0, 1, 0, 0, 0);
    assert_eq!(next_action(None, &s, false, 0), ShipAction::Collecting);
    assert_eq!(next_action(None, &s, true, 0), ShipAction::Collecting);
}

#[test]
fn collecting_ship_turns_to_deliver_when_nearly_full() {
    let collecting = Some(ShipAction::Collecting);
    assert_eq!(next_action(collecting, &ship(0, 1, 0, 0, 899), false, 5), ShipAction::Collecting);
    assert_eq!(next_action(collecting, &ship(0, 1, 0, 0, 900), false, 5), ShipAction::Dropping);
}

#[test]
fn delivering_ship_turns_to_collect_when_empty() {
    let dropping = Some(ShipAction::Dropping);
    assert_eq!(next_action(dropping, &ship(0, 1, 0, 0, 1), false, 5), ShipAction::Dropping);
    assert_eq!(next_action(dropping, &ship(0, 1, 0, 0, 0), false, 5), ShipAction::Collecting);
}

#[test]
fn ships_head_home_when_the_match_ends() {
    for previous in [ShipAction::Collecting, ShipAction::Dropping] {
        assert_eq!(
            next_action(Some(previous), &ship(0, 1, 0, 0, 10), true, 5),
            ShipAction::Finishing
        );
        assert_eq!(next_action(Some(previous), &ship(0, 1, 0, 0, 9), true, 5), previous);
    }
    assert_eq!(
        next_action(Some(ShipAction::Collecting), &ship(0, 1, 0, 0, 950), true, 500),
        ShipAction::Collecting
    );
    assert_eq!(
        next_action(Some(ShipAction::Dropping), &ship(0, 1, 0, 0, 0), true, 1),
        ShipAction::Dropping
    );
    assert_eq!(
        next_action(Some(ShipAction::Finishing), &ship(0, 1, 0, 0, 0), true, 5),
        ShipAction::Finishing
    );
    assert_eq!(
        next_action(Some(ShipAction::Finishing), &ship(0, 1, 0, 0, 0), false, 5),
        ShipAction::Finishing
    );
    assert_eq!(
        next_action(Some(ShipAction::Collecting), &ship(0, 1, 0, 0, usize::MAX), true, usize::MAX),
        ShipAction::Collecting
    );
}

#[test]
fn finishing_is_sticky() {
    assert!(!finishing_now(false, 4, 5));
    assert!(finishing_now(false, 5, 5));
    assert!(finishing_now(false, 6, 5));
    assert!(finishing_now(true, 0, 400));
}

#[test]
fn spawn_needs_time_money_and_a_safe_shipyard() {
    let yard = ship(0, 1, 3, 3, 0);
    let mut navi = Navi::new(10, 10);
    assert!(should_spawn(200, &player(3, 3, 1000), 1000, &navi));
    assert!(!should_spawn(201, &player(3, 3, 1000), 1000, &navi));
    assert!(!should_spawn(1, &player(3, 3, 999), 1000, &navi));
    navi.update_frame(&vec![yard], PlayerId(0));
    assert!(should_spawn(1, &player(3, 3, 1000), 1000, &navi));
    navi.resolve(&yard, &at(3, 3));
    assert!(!should_spawn(1, &player(3, 3, 1000), 1000, &navi));
}

#[test]
fn goals_are_planned_for_collectors_and_fresh_deliverers() {
    let map = map_with(0, &[(5, 8, 40), (5, 10 - 1, 90), (6, 5, 10)]);
    let s = ship(0, 1, 5, 5, 0);
    let navi = Navi::new(10, 10);
    assert_eq!(plan_goal(ShipAction::Collecting, None, &s, &map, &navi, None), Some(at(5, 8)));
    assert_eq!(
        plan_goal(
            ShipAction::Dropping,
            Some(ShipAction::Collecting),
            &s,
            &map,
            &navi,
            Some(&at(6, 5))
        ),
        Some(at(5, -1))
    );
    assert_eq!(
        plan_goal(ShipAction::Dropping, Some(ShipAction::Dropping), &s, &map, &navi, None),
        None
    );
    assert_eq!(plan_goal(ShipAction::Dropping, None, &s, &map, &navi, None), None);
    assert_eq!(
        plan_goal(ShipAction::Finishing, Some(ShipAction::Collecting), &s, &map, &navi, None),
        None
    );
}

#[test]
fn orders_are_found_by_ship() {
    let orders = vec![dropping(ship(0, 4, 0, 0, 0)), dropping(ship(0, 7, 1, 1, 0))];
    assert_eq!(find_order(&orders, ShipId(4)), Some(0));
    assert_eq!(find_order(&orders, ShipId(7)), Some(1));
    assert_eq!(find_order(&orders, ShipId(5)), None);
    assert_eq!(find_order(&vec![], ShipId(5)), None);
}

#[test]
fn begin_resets_the_tracker() {
    let turn = begin(&[ship(0, 1, 1, 1, 0), ship(1, 2, 2, 2, 0)]);
    assert!(turn.queue.is_empty());
    assert!(turn.commands.is_empty());
    assert_eq!(turn.navi.occupation_at(&at(1, 1)), Some(Occupation::Me(ShipId(1), false)));
    assert_eq!(turn.navi.occupation_at(&at(2, 2)), Some(Occupation::Enemy(ShipId(2))));
}

#[test]
fn final_decision_commits_and_commands() {
    let a = ship(0, 1, 1, 1, 0);
    let mut turn = begin(&[a]);
    turn.apply(&a, MoveDecision::Final(Direction::South));
    assert_eq!(turn.commands, vec![moved(1, Direction::South)]);
    assert_eq!(turn.navi.occupation_at(&at(1, 2)), Some(Occupation::Me(ShipId(1), true)));
    assert_eq!(turn.navi.occupation_at(&at(1, 1)), None);
    assert!(turn.queue.is_empty());
}

#[test]
fn dropoff_decision_records_the_site() {
    let a = ship(0, 1, 1, 1, 0);
    let mut turn = begin(&[a]);
    turn.apply(&a, MoveDecision::Dropoff);
    assert_eq!(turn.commands, vec![Command::Dropoff(ShipId(1))]);
    assert_eq!(turn.dropoffs, vec![at(1, 1)]);
    assert_eq!(turn.navi.occupation_at(&at(1, 1)), Some(Occupation::Me(ShipId(1), false)));
}

#[test]
fn waiting_decision_issues_nothing() {
    let a = ship(0, 1, 1, 1, 0);
    let b = ship(0, 2, 2, 1, 0);
    let mut turn = begin(&[a, b]);
    turn.apply(&a, MoveDecision::Waiting(Direction::East, ShipId(2)));
    assert!(turn.commands.is_empty());
    assert!(turn.queue.is_empty());
    assert_eq!(turn.navi.waiting_ship(&ShipId(2)), Some(ShipId(1)));
}

#[test]
fn wake_on_release() {
    let a = ship(0, 1, 2, 1, 0);
    let b = ship(0, 2, 1, 1, 0);
    let mut turn = begin(&[a, b]);
    turn.queue.push(ShipId(9));
    turn.apply(&b, MoveDecision::Waiting(Direction::East, ShipId(1)));
    assert_eq!(turn.queue, vec![ShipId(9)]);
    turn.apply(&a, MoveDecision::Final(Direction::East));
    assert_eq!(turn.queue, vec![ShipId(9), ShipId(2)]);
    assert!(!turn.navi.has_ship_waiting_for(&ShipId(1)));
    assert_eq!(turn.commands, vec![moved(1, Direction::East)]);
}

#[test]
fn waiter_retries_within_the_same_turn() {
    let a = ship(0, 1, 5, 5, 900);
    let b = ship(0, 2, 4, 5, 900);
    let turn = run_turn(
        Navi::new(10, 10),
        vec![],
        &vec![a, b],
        &vec![dropping(a), dropping(b)],
        &player(8, 5, 0),
        &map_with(0, &[]),
        false,
    );
    assert_eq!(turn.commands, vec![moved(1, Direction::East), moved(2, Direction::East)]);
    assert_eq!(turn.navi.occupation_at(&at(6, 5)), Some(Occupation::Me(ShipId(1), true)));
    assert_eq!(turn.navi.occupation_at(&at(5, 5)), Some(Occupation::Me(ShipId(2), true)));
    assert_eq!(turn.navi.occupation_at(&at(4, 5)), None);
}

#[test]
fn blocker_decided_first_needs_no_waiting() {
    let a = ship(0, 1, 5, 5, 900);
    let b = ship(0, 2, 4, 5, 900);
    let turn = run_turn(
        Navi::new(10, 10),
        vec![],
        &vec![a, b],
        &vec![dropping(b), dropping(a)],
        &player(8, 5, 0),
        &map_with(0, &[]),
        false,
    );
    assert_eq!(turn.commands, vec![moved(1, Direction::East), moved(2, Direction::East)]);
}

#[test]
fn mutual_waiters_both_stay() {
    let a = ship(0, 1, 1, 1, 0);
    let b = ship(0, 2, 2, 1, 0);
    let mut turn = begin(&[a, b]);
    turn.apply(&a, MoveDecision::Waiting(Direction::East, ShipId(2)));
    turn.apply(&b, MoveDecision::Waiting(Direction::West, ShipId(1)));
    assert!(turn.queue.is_empty());
    assert!(turn.commands.is_empty());
    turn.settle();
    assert_eq!(turn.commands, vec![moved(1, Direction::Still), moved(2, Direction::Still)]);
    assert!(!turn.navi.has_ship_waiting_for(&ShipId(1)));
    assert!(!turn.navi.has_ship_waiting_for(&ShipId(2)));
    turn.settle();
    assert_eq!(turn.commands.len(), 2);
}

#[test]
fn ring_of_waiters_all_stay() {
    let a = ship(0, 1, 1, 1, 10);
    let b = ship(0, 2, 2, 1, 10);
    let c = ship(0, 3, 2, 2, 10);
    let d = ship(0, 4, 1, 2, 10);
    let map = map_with(0, &[(1, 1, 40), (2, 1, 1), (2, 2, 4), (1, 2, 13)]);
    let orders = vec![
        collecting(a, at(2, 1)),
        collecting(b, at(2, 2)),
        collecting(c, at(1, 2)),
        collecting(d, at(1, 1)),
    ];
    let turn =
        run_turn(Navi::new(10, 10), vec![], &vec![a, b, c, d], &orders, &player(9, 9, 0), &map, false);
    assert_eq!(
        turn.commands,
        vec![
            moved(4, Direction::Still),
            moved(3, Direction::Still),
            moved(2, Direction::Still),
            moved(1, Direction::Still),
        ]
    );
    assert!(turn.queue.is_empty());
    for s in [a, b, c, d] {
        assert_eq!(turn.navi.occupation_at(&s.position), Some(Occupation::Me(s.id, false)));
        assert!(!turn.navi.has_ship_waiting_for(&s.id));
    }
}

#[test]
fn two_ships_that_block_each_other_both_stay() {
    let a = ship(0, 1, 1, 1, 10);
    let b = ship(0, 2, 2, 1, 10);
    let map = map_with(0, &[(1, 1, 40), (2, 1, 1)]);
    let orders = vec![collecting(a, at(2, 1)), collecting(b, at(1, 1))];
    let turn =
        run_turn(Navi::new(10, 10), vec![], &vec![a, b], &orders, &player(9, 9, 0), &map, false);
    assert_eq!(turn.commands, vec![moved(2, Direction::Still), moved(1, Direction::Still)]);
    assert!(turn.queue.is_empty());
    assert_eq!(turn.navi.occupation_at(&at(1, 1)), Some(Occupation::Me(ShipId(1), false)));
    assert_eq!(turn.navi.occupation_at(&at(2, 1)), Some(Occupation::Me(ShipId(2), false)));
    assert!(!turn.navi.has_ship_waiting_for(&ShipId(1)));
    assert!(!turn.navi.has_ship_waiting_for(&ShipId(2)));
}

#[test]
fn second_waiter_displaces_the_first() {
    let a = ship(0, 1, 5, 5, 0);
    let b = ship(0, 2, 4, 5, 0);
    let c = ship(0, 3, 6, 5, 0);
    let mut turn = begin(&[a, b, c]);
    turn.apply(&b, MoveDecision::Waiting(Direction::East, ShipId(1)));
    turn.apply(&c, MoveDecision::Waiting(Direction::West, ShipId(1)));
    assert_eq!(turn.navi.waiting_ship(&ShipId(1)), Some(ShipId(3)));
    turn.apply(&a, MoveDecision::Final(Direction::North));
    assert_eq!(turn.queue, vec![ShipId(3)]);
    turn.settle();
    assert_eq!(turn.commands, vec![moved(1, Direction::North)]);
}

#[test]
fn engine_never_queues_a_second_waiter() {
    let a = ship(0, 1, 5, 5, 10);
    let b = ship(0, 2, 4, 5, 0);
    let c = ship(0, 3, 5, 6, 0);
    let orders =
        vec![collecting(a, at(5, 3)), collecting(b, at(6, 5)), collecting(c, at(5, 4))];
    let turn = run_turn(
        Navi::new(10, 10),
        vec![],
        &vec![a, b, c],
        &orders,
        &player(9, 9, 0),
        &map_with(0, &[(5, 5, 100)]),
        false,
    );
    assert_eq!(
        turn.commands,
        vec![moved(2, Direction::North), moved(1, Direction::North), moved(3, Direction::North)]
    );
}

#[test]
fn every_ship_gets_exactly_one_command() {
    let mut ships = Vec::new();
    let mut orders = Vec::new();
    let mut id = 0;
    for x in 2..7 {
        for y in 3..7 {
            id += 1;
            let s = ship(0, id, x, y, 100 + id);
            ships.push(s);
            orders.push(if id % 3 == 0 {
                collecting(s, at((x + 3) % 10, (y + 5) % 10))
            } else {
                dropping(s)
            });
        }
    }
    ships.push(ship(1, 100, 7, 4, 0));
    ships.push(ship(1, 101, 4, 2, 0));
    let map = map_with(25, &[(3, 3, 400), (5, 5, 90), (6, 4, 300)]);
    for finishing in [false, true] {
        let turn = run_turn(
            Navi::new(10, 10),
            vec![],
            &ships,
            &orders,
            &player(8, 4, 0),
            &map,
            finishing,
        );
        assert_eq!(turn.commands.len(), orders.len());
        let mut ids: Vec<usize> = turn.commands.iter().map(addressee).collect();
        ids.sort();
        assert_eq!(ids, (1..=orders.len()).collect::<Vec<usize>>());
        assert!(turn.queue.is_empty());
    }
}

#[test]
fn moving_ships_land_on_different_cells() {
    let mut ships = Vec::new();
    let mut orders = Vec::new();
    let mut id = 0;
    for x in 2..7 {
        for y in 3..7 {
            id += 1;
            let s = ship(0, id, x, y, 900);
            ships.push(s);
            orders.push(dropping(s));
        }
    }
    let turn = run_turn(
        Navi::new(10, 10),
        vec![],
        &ships,
        &orders,
        &player(8, 4, 0),
        &map_with(0, &[]),
        false,
    );
    assert_eq!(turn.commands.len(), 20);
    let cells: Vec<Position> =
        turn.commands.iter().map(|c| landing(&ships, c).unwrap()).collect();
    for i in 0..cells.len() {
        for j in 0..i {
            assert_ne!(cells[i], cells[j]);
        }
    }
}

#[test]
fn no_orders_no_commands() {
    let turn = run_turn(
        Navi::new(10, 10),
        vec![at(1, 1)],
        &vec![ship(1, 5, 2, 2, 0)],
        &vec![],
        &player(0, 0, 0),
        &map_with(0, &[]),
        false,
    );
    assert!(turn.commands.is_empty());
    assert_eq!(turn.dropoffs, vec![at(1, 1)]);
    assert_eq!(turn.navi.occupation_at(&at(2, 2)), Some(Occupation::Enemy(ShipId(5))));
}

#[test]
fn conversion_adds_a_dropoff_for_the_ships_decided_later() {
    let far = ship(0, 1, 5, 8, 900);
    let near = ship(0, 2, 5, 6, 900);
    let map = map_with(0, &[(5, 8, 100)]);
    let turn = run_turn(
        Navi::new(10, 10),
        vec![],
        &vec![far, near],
        &vec![dropping(near), dropping(far)],
        &player(5, 2, 3000),
        &map,
        false,
    );
    assert_eq!(turn.commands, vec![Command::Dropoff(ShipId(1)), moved(2, Direction::South)]);
    assert_eq!(turn.dropoffs, vec![at(5, 8)]);
}

#[test]
fn step_decides_the_ship_pushed_last() {
    let a = ship(0, 1, 5, 5, 900);
    let b = ship(0, 2, 1, 1, 900);
    let orders = vec![dropping(a), dropping(b)];
    let mut turn = begin(&[a, b]);
    turn.queue.push(ShipId(1));
    turn.queue.push(ShipId(2));
    turn.step(&orders, &player(5, 2, 0), &map_with(0, &[]), false);
    assert_eq!(turn.queue, vec![ShipId(1)]);
    assert_eq!(turn.commands, vec![moved(2, Direction::East)]);
}

#[test]
fn step_drops_a_ship_without_an_order() {
    let a = ship(0, 1, 5, 5, 900);
    let mut turn = begin(&[a]);
    turn.queue.push(ShipId(8));
    turn.step(&vec![dropping(a)], &player(5, 2, 0), &map_with(0, &[]), false);
    assert!(turn.queue.is_empty());
    assert!(turn.commands.is_empty());
}

#[test]
fn run_on_a_fresh_turn() {
    let a = ship(0, 1, 5, 5, 900);
    let b = ship(0, 2, 5, 6, 900);
    let mut turn = begin(&[a, b]);
    turn.run(&vec![dropping(a), dropping(b)], &player(5, 2, 0), &map_with(0, &[]), false);
    assert_eq!(turn.commands, vec![moved(1, Direction::North), moved(2, Direction::North)]);
    assert!(turn.queue.is_empty());
    assert_eq!(turn.navi.occupation_at(&at(5, 4)), Some(Occupation::Me(ShipId(1), true)));
    assert_eq!(turn.navi.occupation_at(&at(5, 5)), Some(Occupation::Me(ShipId(2), true)));
    assert_eq!(turn.navi.occupation_at(&at(5, 6)), None);
}

#[test]
fn ships_on_one_cell_are_not_kept_apart() {
    let a = ship(0, 1, 5, 2, 900);
    let b = ship(0, 2, 5, 2, 900);
    let turn = run_turn(
        Navi::new(10, 10),
        vec![],
        &vec![a, b],
        &vec![dropping(a), dropping(b)],
        &player(5, 2, 0),
        &map_with(0, &[]),
        false,
    );
    assert_eq!(turn.commands, vec![moved(2, Direction::Still), moved(1, Direction::Still)]);
    assert_eq!(turn.navi.occupation_at(&at(5, 2)), Some(Occupation::Me(ShipId(1), true)));
}

#[test]
fn endgame_ship_is_committed_onto_an_undecided_ship() {
    let a = ship(0, 1, 5, 3, 900);
    let b = ship(0, 2, 5, 2, 900);
    let turn = run_turn(
        Navi::new(10, 10),
        vec![],
        &vec![a, b],
        &vec![dropping(b), dropping(a)],
        &player(5, 2, 0),
        &map_with(0, &[]),
        true,
    );
    assert_eq!(turn.commands, vec![moved(1, Direction::North), moved(2, Direction::Still)]);
    assert_eq!(turn.navi.occupation_at(&at(5, 2)), Some(Occupation::Me(ShipId(2), true)));
}
