//! The turn driver: a work queue of ships, one decision and one commit at a
//! time.
//!
//! The queue is a stack: the ship pushed last is decided first. A ship whose
//! step is blocked by an undecided ship of the fleet leaves the queue and is
//! entered in the waiting table; once the blocker has committed its move the
//! waiter is pushed back and so decided next. Ships that still wait when the
//! queue is empty are told to stay, so every ship ends the turn with exactly
//! one command.
use crate::command::Command;
use crate::direction::Direction;
use crate::game_map::{GameMap, Player};
use crate::ids::{PlayerId, ShipId};
use crate::navi::{
    lemma_commitments_stay, lemma_record_waiting, lemma_resolve_round_trip, lemma_slot_of,
    lemma_take_waiter, slot_of, waiters_of, Navi, NaviModel, Occupation,
};
use crate::position::Position;
use crate::ship::{
    lemma_collect_decision, lemma_drop_decision, scan_result, MoveDecision, Ship,
};
use vstd::multiset::Multiset;
use vstd::prelude::*;

verus! {

broadcast use vstd::seq_lib::group_to_multiset_ensures;

/// What a ship is doing over the turns.
#[derive(Copy, Clone, Debug, PartialEq, Eq, Structural)]
pub enum ShipAction {
    /// Gathering halite on the way to a goal.
    Collecting,
    /// Carrying the cargo to the nearest place of delivery.
    Dropping,
    /// Heading home for good because the match is about to end.
    Finishing,
}

/// The share of its capacity, in hundredths, from which a collecting ship
/// turns to deliver.
pub const FULL_PERCENT: usize = 90;

/// How far a collecting ship looks for a goal.
pub const COLLECT_RADIUS: i32 = 3;

/// How far a ship that has just turned to deliver looks for the goal it
/// will come back to.
pub const DROP_RADIUS: i32 = 6;

/// The last turn in which a ship is built.
pub const LAST_SPAWN_TURN: usize = 200;

impl ShipAction {
    /// What a ship does this turn, given what it did last turn.
    ///
    /// A ship that is new collects. Once the match is about to end
    /// (`finishing`) a ship that is not yet heading home does so as soon as
    /// it carries at least twice its distance from home, and changes
    /// nothing before. Otherwise a collecting ship turns to deliver when it
    /// is nine tenths full, and a delivering ship turns to collect when it
    /// is empty.
    pub open spec fn next(previous: Option<ShipAction>, ship: Ship, finishing: bool, home: int)
        -> ShipAction {
        match previous {
            None => ShipAction::Collecting,
            Some(action) => if finishing && action != ShipAction::Finishing {
                if ship.halite >= 2 * home {
                    ShipAction::Finishing
                } else {
                    action
                }
            } else {
                match action {
                    ShipAction::Collecting => if ship.halite >= (ship.max_halite * FULL_PERCENT)
                        / 100 {
                        ShipAction::Dropping
                    } else {
                        ShipAction::Collecting
                    },
                    ShipAction::Dropping => if ship.halite == 0 {
                        ShipAction::Collecting
                    } else {
                        ShipAction::Dropping
                    },
                    ShipAction::Finishing => ShipAction::Finishing,
                }
            },
        }
    }

    /// The radius in which a ship looks for a goal this turn, if it does:
    /// a collecting ship always, a delivering ship in the turn in which it
    /// stopped collecting.
    pub open spec fn scan_radius(self, previous: Option<ShipAction>) -> Option<i32> {
        match self {
            ShipAction::Collecting => Some(COLLECT_RADIUS),
            ShipAction::Dropping => if previous == Some(ShipAction::Collecting) {
                Some(DROP_RADIUS)
            } else {
                None
            },
            ShipAction::Finishing => None,
        }
    }
}

/// What a ship does this turn; `distance_home` is its distance from the
/// shipyard.
pub fn next_action(
    previous: Option<ShipAction>,
    ship: &Ship,
    finishing: bool,
    distance_home: usize,
) -> (r: ShipAction)
    ensures
        r == ShipAction::next(previous, *ship, finishing, distance_home as int),
{
    match previous {
        None => ShipAction::Collecting,
        Some(action) => {
            let heading_home = match action {
                ShipAction::Finishing => true,
                _ => false,
            };
            if finishing && !heading_home {
                if ship.halite as u128 >= 2 * (distance_home as u128) {
                    ShipAction::Finishing
                } else {
                    action
                }
            } else {
                match action {
                    ShipAction::Collecting => if ship.is_full_by(FULL_PERCENT) {
                        ShipAction::Dropping
                    } else {
                        ShipAction::Collecting
                    },
                    ShipAction::Dropping => if ship.halite == 0 {
                        ShipAction::Collecting
                    } else {
                        ShipAction::Dropping
                    },
                    ShipAction::Finishing => ShipAction::Finishing,
                }
            }
        },
    }
}

/// Whether the fleet heads home for good: it does once the farthest ship is
/// at least as many steps from home as there are turns left, and from then
/// on for the rest of the match.
pub fn finishing_now(finishing: bool, max_distance: usize, remaining_turns: usize) -> (r: bool)
    ensures
        r == (finishing || max_distance >= remaining_turns),
{
    finishing || max_distance >= remaining_turns
}

/// The goal a ship looks out for this turn, if it looks for one.
pub fn plan_goal(
    action: ShipAction,
    previous: Option<ShipAction>,
    ship: &Ship,
    map: &GameMap,
    navi: &Navi,
    goal: Option<&Position>,
) -> (r: Option<Position>)
    requires
        map.wf(),
        action.scan_radius(previous) matches Some(radius) ==> ship.position.within_reach(
            radius as int,
        ),
    ensures
        match action.scan_radius(previous) {
            Some(radius) => r matches Some(found) && scan_result(
                *map,
                ship.position,
                radius as int,
                goal,
                found,
            ),
            None => r is None,
        },
{
    let radius = match action {
        ShipAction::Collecting => Some(COLLECT_RADIUS),
        ShipAction::Dropping => match previous {
            Some(ShipAction::Collecting) => Some(DROP_RADIUS),
            _ => None,
        },
        ShipAction::Finishing => None,
    };
    match radius {
        Some(radius) => Some(ship.scan_for_goal(radius, map, navi, goal)),
        None => None,
    }
}

/// Whether the shipyard builds a ship this turn: it is early enough in the
/// match, the player can pay for it, and the shipyard's cell is safe.
pub fn should_spawn(turn_number: usize, player: &Player, ship_cost: usize, navi: &Navi) -> (r: bool)
    requires
        navi.wf(),
    ensures
        r == (turn_number <= LAST_SPAWN_TURN && player.halite >= ship_cost && navi@.is_safe(
            player.shipyard,
        )),
{
    turn_number <= LAST_SPAWN_TURN && player.halite >= ship_cost && navi.is_safe(&player.shipyard)
}

/// What the fleet's owner has laid down for one ship this turn.
#[derive(Copy, Clone, Debug)]
pub struct Order {
    pub ship: Ship,
    pub action: ShipAction,
    /// The cell a collecting ship heads for.
    pub goal: Position,
}

/// The ships of the orders, in the orders' order.
pub open spec fn order_ids(orders: Seq<Order>) -> Seq<ShipId> {
    Seq::new(orders.len(), |i: int| orders[i].ship.id)
}

/// The index of the last order that is for the ship `id`.
pub open spec fn order_of(orders: Seq<Order>, id: ShipId) -> Option<int>
    decreases orders.len(),
{
    if orders.len() == 0 {
        None
    } else if orders.last().ship.id == id {
        Some(orders.len() - 1)
    } else {
        order_of(orders.drop_last(), id)
    }
}

/// `order_of` finds an order for the ship exactly if there is one.
pub proof fn lemma_order_of(orders: Seq<Order>, id: ShipId)
    ensures
        match order_of(orders, id) {
            Some(i) => 0 <= i < orders.len() && orders[i].ship.id == id,
            None => !order_ids(orders).contains(id),
        },
    decreases orders.len(),
{
    if orders.len() > 0 && orders.last().ship.id != id {
        let front = orders.drop_last();
        lemma_order_of(front, id);
        if order_of(front, id) is None {
            assert forall|j: int| 0 <= j < orders.len() implies order_ids(orders)[j] != id by {
                if j < front.len() {
                    assert(order_ids(front)[j] == front[j].ship.id);
                    assert(order_ids(front).contains(front[j].ship.id));
                }
            }
        }
    }
}

/// The ship a command is addressed to; the ship with the number zero for a
/// command that is addressed to none.
pub open spec fn addressee(c: Command) -> ShipId {
    match c.ship() {
        Some(id) => id,
        None => ShipId(0),
    }
}

/// The ships that the commands are addressed to, command by command.
pub open spec fn addressees(commands: Seq<Command>) -> Seq<ShipId> {
    Seq::new(commands.len(), |i: int| addressee(commands[i]))
}

/// The command to stay, for each of the ships.
pub open spec fn stationary(ids: Seq<ShipId>) -> Seq<Command> {
    Seq::new(ids.len(), |i: int| Command::Move(ids[i], Direction::Still))
}

/// A turn in progress, as a mathematical value.
pub struct TurnModel {
    pub navi: NaviModel,
    /// The ships still to be decided; the last one is next.
    pub queue: Seq<ShipId>,
    /// The commands issued so far.
    pub commands: Seq<Command>,
    /// The places of delivery besides the shipyard.
    pub dropoffs: Seq<Position>,
}

impl TurnModel {
    /// A turn in which nothing has been queued, issued or made to wait.
    pub open spec fn fresh(self) -> bool {
        self.queue.len() == 0 && self.commands.len() == 0 && self.navi.waiting.len() == 0
    }

    /// The turn after the ships of the orders have been queued.
    pub open spec fn enqueue(self, orders: Seq<Order>) -> TurnModel {
        TurnModel { queue: self.queue + order_ids(orders), ..self }
    }

    /// The turn after `decision` has been carried out for `ship`.
    ///
    /// A waiting ship is entered in the waiting table. A final step is
    /// committed in the tracker and issued as a command, and the ship that
    /// waited for `ship` is pushed onto the queue. A ship that becomes a
    /// dropoff gets its command and its cell is added to the dropoffs.
    pub open spec fn apply(self, ship: Ship, decision: MoveDecision) -> TurnModel {
        match decision {
            MoveDecision::Waiting(_, blocker) => TurnModel {
                navi: self.navi.record_waiting(blocker, ship.id),
                ..self
            },
            MoveDecision::Final(d) => {
                let moved = self.navi.resolve(ship.id, ship.position, ship.position.offset(d));
                TurnModel {
                    navi: moved.take_waiter(ship.id),
                    queue: match moved.waiter_of(ship.id) {
                        Some(waiter) => self.queue.push(waiter),
                        None => self.queue,
                    },
                    commands: self.commands.push(Command::Move(ship.id, d)),
                    ..self
                }
            },
            MoveDecision::Dropoff => TurnModel {
                commands: self.commands.push(Command::Dropoff(ship.id)),
                dropoffs: self.dropoffs.push(ship.position),
                ..self
            },
        }
    }

    /// What the engine proposes for the ship of `order` as the turn stands.
    pub open spec fn decision(self, order: Order, player: Player, map: GameMap, finishing: bool)
        -> MoveDecision {
        match order.action {
            ShipAction::Collecting => order.ship.collect_decision(
                player,
                map,
                self.navi,
                order.goal,
            ),
            _ => order.ship.drop_decision(player, map, self.navi, self.dropoffs, finishing),
        }
    }

    /// The turn without the ship that is next in the queue.
    pub open spec fn popped(self) -> TurnModel {
        TurnModel { queue: self.queue.drop_last(), ..self }
    }

    /// The turn after the next ship in the queue has been decided and the
    /// decision carried out. A ship without an order is dropped.
    pub open spec fn step(self, orders: Seq<Order>, player: Player, map: GameMap, finishing: bool)
        -> TurnModel {
        let rest = self.popped();
        match order_of(orders, self.queue.last()) {
            Some(k) => rest.apply(orders[k].ship, rest.decision(orders[k], player, map, finishing)),
            None => rest,
        }
    }

    /// The turn after at most `fuel` steps, stopping when the queue is
    /// empty.
    pub open spec fn drain(
        self,
        orders: Seq<Order>,
        player: Player,
        map: GameMap,
        finishing: bool,
        fuel: nat,
    ) -> TurnModel
        decreases fuel,
    {
        if fuel == 0 || self.queue.len() == 0 {
            self
        } else {
            self.step(orders, player, map, finishing).drain(
                orders,
                player,
                map,
                finishing,
                (fuel - 1) as nat,
            )
        }
    }

    /// The turn after every ship that still waits has been told to stay.
    pub open spec fn settle(self) -> TurnModel {
        TurnModel {
            navi: self.navi.idle(),
            commands: self.commands + stationary(waiters_of(self.navi.waiting)),
            ..self
        }
    }

    /// The whole pass for the ships of the orders: queue them, decide until
    /// the queue is empty, tell the ships that still wait to stay.
    pub open spec fn run(self, orders: Seq<Order>, player: Player, map: GameMap, finishing: bool)
        -> TurnModel {
        self.enqueue(orders).drain(orders, player, map, finishing, 3 * orders.len()).settle()
    }

    /// Whether carrying out `decision` for `ship` commits the ship to a cell
    /// that another ship has committed to.
    pub open spec fn clashes(self, ship: Ship, decision: MoveDecision) -> bool {
        decision matches MoveDecision::Final(d) && self.navi.committed(ship.position.offset(d))
            is Some && self.navi.committed(ship.position.offset(d)) != Some(ship.id)
    }

    /// Whether the next step clashes.
    pub open spec fn step_clashes(
        self,
        orders: Seq<Order>,
        player: Player,
        map: GameMap,
        finishing: bool,
    ) -> bool {
        match order_of(orders, self.queue.last()) {
            Some(k) => self.popped().clashes(
                orders[k].ship,
                self.popped().decision(orders[k], player, map, finishing),
            ),
            None => false,
        }
    }

    /// Whether none of the steps that `drain` takes clashes.
    pub open spec fn clash_free(
        self,
        orders: Seq<Order>,
        player: Player,
        map: GameMap,
        finishing: bool,
        fuel: nat,
    ) -> bool
        decreases fuel,
    {
        if fuel == 0 || self.queue.len() == 0 {
            true
        } else {
            &&& !self.step_clashes(orders, player, map, finishing)
            &&& self.step(orders, player, map, finishing).clash_free(
                orders,
                player,
                map,
                finishing,
                (fuel - 1) as nat,
            )
        }
    }

    /// The cell on which the command lands its ship: for a move of a ship
    /// with an order, the wrapped cell one step from where the ship is.
    pub open spec fn landing(self, orders: Seq<Order>, c: Command) -> Option<Position> {
        match c {
            Command::Move(id, d) => match order_of(orders, id) {
                Some(k) => Some(self.navi.normalize(orders[k].ship.position.offset(d))),
                None => None,
            },
            _ => None,
        }
    }

    /// Whether the tracker has the ship of the command as committed to the
    /// cell on which the command lands it.
    pub open spec fn on_record(self, orders: Seq<Order>, c: Command) -> bool {
        match c {
            Command::Move(id, d) => match order_of(orders, id) {
                Some(k) => self.navi.committed(orders[k].ship.position.offset(d)) == Some(id),
                None => false,
            },
            _ => true,
        }
    }

    /// Whether every move issued so far is on record.
    pub open spec fn recorded(self, orders: Seq<Order>) -> bool {
        forall|i: int|
            0 <= i < self.commands.len() ==> self.on_record(orders, #[trigger] self.commands[i])
    }

    /// A pass in good order: the tracker is well formed, no two orders are
    /// for the same ship, every ship of the orders has its command, is
    /// queued or waits, and every move issued is on record.
    pub open spec fn in_order(self, orders: Seq<Order>) -> bool {
        &&& self.navi.wf()
        &&& order_ids(orders).no_duplicates()
        &&& self.roll() == order_ids(orders).to_multiset()
        &&& self.recorded(orders)
    }

    /// Whether every ship of the orders that has no command yet is entered
    /// in the tracker as the undecided holder of its cell.
    pub open spec fn seated(self, orders: Seq<Order>) -> bool {
        forall|k: int|
            0 <= k < orders.len() && !addressees(self.commands).contains(
                (#[trigger] orders[k]).ship.id,
            ) ==> self.navi.occupation_at(orders[k].ship.position) == Some(
                Occupation::Me(orders[k].ship.id, false),
            )
    }

    /// Whether no two of the moves issued land their ships on the same
    /// cell.
    pub open spec fn lands_apart(self, orders: Seq<Order>) -> bool {
        forall|i: int, j: int|
            0 <= i < j < self.commands.len() && self.landing(orders, self.commands[i]) is Some
                && self.landing(orders, self.commands[j]) is Some ==> self.landing(
                orders,
                #[trigger] self.commands[i],
            ) != self.landing(orders, #[trigger] self.commands[j])
    }

    /// A bound on the number of steps until the queue is empty.
    pub open spec fn budget(self) -> nat {
        2 * self.navi.waiting.len() + 3 * self.queue.len()
    }

    /// The ships that have their command, are queued or wait, each as often
    /// as it occurs.
    pub open spec fn roll(self) -> Multiset<ShipId> {
        addressees(self.commands).to_multiset().add(self.queue.to_multiset()).add(
            waiters_of(self.navi.waiting).to_multiset(),
        )
    }
}

/// Carrying out an orderly decision for a ship adds the ship to the roll
/// once, lets no other ship leave it, and lengthens the work ahead by less
/// than deciding the ship shortened it.
pub proof fn lemma_apply_keeps_roll(t: TurnModel, ship: Ship, decision: MoveDecision)
    requires
        decision.orderly(t.navi, ship.position),
    ensures
        t.apply(ship, decision).roll() == t.roll().insert(ship.id),
        t.apply(ship, decision).budget() <= t.budget() + 2,
{
    let after = t.apply(ship, decision);
    match decision {
        MoveDecision::Waiting(_, blocker) => {
            assert(waiters_of(after.navi.waiting) =~= waiters_of(t.navi.waiting).push(ship.id));
        },
        MoveDecision::Final(d) => {
            let moved = t.navi.resolve(ship.id, ship.position, ship.position.offset(d));
            assert(moved.waiting == t.navi.waiting);
            assert(addressees(after.commands) =~= addressees(t.commands).push(ship.id));
            lemma_slot_of(t.navi.waiting, ship.id);
            match slot_of(t.navi.waiting, ship.id) {
                Some(i) => {
                    let waiters = waiters_of(t.navi.waiting);
                    assert(waiters_of(after.navi.waiting) =~= waiters.remove(i));
                    assert(waiters.contains(waiters[i]));
                },
                None => {},
            }
        },
        MoveDecision::Dropoff => {
            assert(addressees(after.commands) =~= addressees(t.commands).push(ship.id));
        },
    }
    assert(after.roll() =~= t.roll().insert(ship.id));
}

/// What the engine proposes for the ship of an order is orderly, and
/// careful too unless the ship delivers while the match is about to end.
pub proof fn lemma_decision_is_orderly(
    t: TurnModel,
    order: Order,
    player: Player,
    map: GameMap,
    finishing: bool,
)
    ensures
        t.decision(order, player, map, finishing).orderly(t.navi, order.ship.position),
        !finishing || order.action == ShipAction::Collecting ==> t.decision(
            order,
            player,
            map,
            finishing,
        ).careful(t.navi, order.ship.position),
{
    lemma_collect_decision(order.ship, player, map, t.navi, order.goal);
    lemma_drop_decision(order.ship, player, map, t.navi, t.dropoffs, finishing);
}

/// Deciding the next ship of the queue, if it has an order, keeps the roll
/// and shortens the work ahead.
pub proof fn lemma_step_keeps_roll(
    t: TurnModel,
    orders: Seq<Order>,
    player: Player,
    map: GameMap,
    finishing: bool,
)
    requires
        t.queue.len() > 0,
        order_ids(orders).contains(t.queue.last()),
    ensures
        t.step(orders, player, map, finishing).roll() == t.roll(),
        t.step(orders, player, map, finishing).budget() < t.budget(),
{
    let rest = t.popped();
    let id = t.queue.last();
    lemma_order_of(orders, id);
    let k = order_of(orders, id).unwrap();
    assert(t.queue =~= rest.queue.push(id));
    lemma_decision_is_orderly(rest, orders[k], player, map, finishing);
    lemma_apply_keeps_roll(rest, orders[k].ship, rest.decision(orders[k], player, map, finishing));
    assert(t.roll() =~= rest.roll().insert(id));
}

/// A ship that is made to wait for a blocker is the blocker's waiter, and
/// when the blocker then commits a move the waiter is pushed onto the
/// queue, where it is the next ship to be decided, and the blocker's slot
/// in the waiting table is free again.
pub proof fn lemma_wake_on_release(
    t: TurnModel,
    blocker: Ship,
    waiter: Ship,
    wanted: Direction,
    taken: Direction,
)
    requires
        t.navi.wf(),
    ensures
        ({
            let waiting = t.apply(waiter, MoveDecision::Waiting(wanted, blocker.id));
            let released = waiting.apply(blocker, MoveDecision::Final(taken));
            &&& waiting.navi.waiter_of(blocker.id) == Some(waiter.id)
            &&& waiting.queue == t.queue
            &&& waiting.commands == t.commands
            &&& released.queue == t.queue.push(waiter.id)
            &&& released.queue.last() == waiter.id
            &&& !released.navi.has_waiter(blocker.id)
            &&& released.commands == t.commands.push(Command::Move(blocker.id, taken))
        }),
{
    lemma_record_waiting(t.navi, blocker.id, waiter.id);
    let waiting = t.apply(waiter, MoveDecision::Waiting(wanted, blocker.id));
    let moved = waiting.navi.resolve(
        blocker.id,
        blocker.position,
        blocker.position.offset(taken),
    );
    lemma_resolve_round_trip(
        waiting.navi,
        blocker.id,
        blocker.position,
        blocker.position.offset(taken),
    );
    lemma_take_waiter(moved, blocker.id);
}

/// Whenever a ship commits a move while another ship waits for it, that
/// ship is the next to be decided.
pub proof fn lemma_release_wakes(t: TurnModel, blocker: Ship, waiter: ShipId, taken: Direction)
    requires
        t.navi.wf(),
        t.navi.waiter_of(blocker.id) == Some(waiter),
    ensures
        t.apply(blocker, MoveDecision::Final(taken)).queue.last() == waiter,
        !t.apply(blocker, MoveDecision::Final(taken)).navi.has_waiter(blocker.id),
{
    let to = blocker.position.offset(taken);
    lemma_resolve_round_trip(t.navi, blocker.id, blocker.position, to);
    lemma_take_waiter(t.navi.resolve(blocker.id, blocker.position, to), blocker.id);
}

/// Carrying out a decision keeps the tracker well formed.
pub proof fn lemma_apply_keeps_wf(t: TurnModel, ship: Ship, decision: MoveDecision)
    requires
        t.navi.wf(),
    ensures
        t.apply(ship, decision).navi.wf(),
{
    match decision {
        MoveDecision::Waiting(_, blocker) => {
            lemma_record_waiting(t.navi, blocker, ship.id);
        },
        MoveDecision::Final(d) => {
            let to = ship.position.offset(d);
            lemma_resolve_round_trip(t.navi, ship.id, ship.position, to);
            lemma_take_waiter(t.navi.resolve(ship.id, ship.position, to), ship.id);
        },
        MoveDecision::Dropoff => {},
    }
}

/// A queue of ships that all have orders runs empty within the budget, and
/// the roll is then as it was.
pub proof fn lemma_drain_keeps_roll(
    t: TurnModel,
    orders: Seq<Order>,
    player: Player,
    map: GameMap,
    finishing: bool,
    fuel: nat,
)
    requires
        t.navi.wf(),
        t.roll() == order_ids(orders).to_multiset(),
        t.budget() <= fuel,
        forall|i: int| 0 <= i < t.commands.len() ==> #[trigger] t.commands[i] != Command::Spawn,
    ensures
        ({
            let end = t.drain(orders, player, map, finishing, fuel);
            &&& end.navi.wf()
            &&& end.queue.len() == 0
            &&& end.roll() == order_ids(orders).to_multiset()
            &&& forall|i: int|
                0 <= i < end.commands.len() ==> #[trigger] end.commands[i] != Command::Spawn
        }),
    decreases fuel,
{
    if fuel > 0 && t.queue.len() > 0 {
        let id = t.queue.last();
        assert(t.queue.contains(id));
        assert(t.roll().count(id) > 0);
        assert(order_ids(orders).contains(id));
        lemma_order_of(orders, id);
        let k = order_of(orders, id).unwrap();
        lemma_step_keeps_roll(t, orders, player, map, finishing);
        lemma_apply_keeps_wf(
            t.popped(),
            orders[k].ship,
            t.popped().decision(orders[k], player, map, finishing),
        );
        lemma_step_issues_no_spawn(t, orders, player, map, finishing);
        lemma_drain_keeps_roll(
            t.step(orders, player, map, finishing),
            orders,
            player,
            map,
            finishing,
            (fuel - 1) as nat,
        );
    }
}

/// Totality. The pass of a fresh turn ends with an empty queue and nobody
/// waiting, and with exactly one command for each ship of the orders: as
/// many commands as orders, addressed to the ships of the orders, each ship
/// as often as it has an order, and none of them a command to build a ship.
pub proof fn lemma_pass_is_total(
    start: TurnModel,
    orders: Seq<Order>,
    player: Player,
    map: GameMap,
    finishing: bool,
)
    requires
        start.navi.wf(),
        start.fresh(),
    ensures
        ({
            let end = start.run(orders, player, map, finishing);
            &&& end.navi.wf()
            &&& end.queue.len() == 0
            &&& end.navi.waiting.len() == 0
            &&& end.commands.len() == orders.len()
            &&& addressees(end.commands).to_multiset() == order_ids(orders).to_multiset()
            &&& forall|i: int|
                0 <= i < end.commands.len() ==> #[trigger] end.commands[i] != Command::Spawn
        }),
{
    let ids = order_ids(orders);
    let queued = start.enqueue(orders);
    assert(queued.queue =~= ids);
    assert(addressees(queued.commands) =~= Seq::<ShipId>::empty());
    assert(waiters_of(queued.navi.waiting) =~= Seq::<ShipId>::empty());
    assert(queued.roll() =~= ids.to_multiset());
    lemma_drain_keeps_roll(queued, orders, player, map, finishing, 3 * orders.len());
    let drained = queued.drain(orders, player, map, finishing, 3 * orders.len());
    let end = drained.settle();
    let waiters = waiters_of(drained.navi.waiting);
    assert(addressees(end.commands) =~= addressees(drained.commands) + waiters);
    vstd::seq_lib::lemma_multiset_commutative(addressees(drained.commands), waiters);
    assert(drained.queue.to_multiset() =~= Multiset::<ShipId>::empty());
    assert(addressees(end.commands).to_multiset() =~= drained.roll());
    assert(addressees(end.commands).to_multiset().len() == addressees(end.commands).len());
    assert(ids.to_multiset().len() == ids.len());
}

/// A step that does not clash keeps the pass in good order.
pub proof fn lemma_step_keeps_order(
    t: TurnModel,
    orders: Seq<Order>,
    player: Player,
    map: GameMap,
    finishing: bool,
)
    requires
        t.in_order(orders),
        t.queue.len() > 0,
        !t.step_clashes(orders, player, map, finishing),
    ensures
        t.step(orders, player, map, finishing).in_order(orders),
{
    let rest = t.popped();
    let id = t.queue.last();
    let ids = order_ids(orders);
    let after = t.step(orders, player, map, finishing);
    assert(t.queue.contains(id));
    assert(t.roll().count(id) > 0);
    assert(ids.contains(id));
    ids.lemma_multiset_has_no_duplicates();
    assert(ids.to_multiset().contains(id));
    assert(addressees(t.commands).to_multiset().count(id) == 0);
    assert(!addressees(t.commands).contains(id));
    lemma_order_of(orders, id);
    let k = order_of(orders, id).unwrap();
    let ship = orders[k].ship;
    let decision = rest.decision(orders[k], player, map, finishing);
    lemma_step_keeps_roll(t, orders, player, map, finishing);
    match decision {
        MoveDecision::Waiting(_, blocker) => {
            lemma_record_waiting(rest.navi, blocker, id);
        },
        MoveDecision::Final(d) => {
            let to = ship.position.offset(d);
            lemma_resolve_round_trip(rest.navi, id, ship.position, to);
            lemma_commitments_stay(rest.navi, id, ship.position, to);
            lemma_take_waiter(rest.navi.resolve(id, ship.position, to), id);
        },
        MoveDecision::Dropoff => {},
    }
    assert forall|i: int| 0 <= i < after.commands.len() implies after.on_record(
        orders,
        #[trigger] after.commands[i],
    ) by {
        if i < t.commands.len() {
            let c = t.commands[i];
            assert(after.commands[i] == c);
            assert(t.on_record(orders, c));
            assert(addressees(t.commands)[i] == addressee(c));
            assert(addressees(t.commands).contains(addressee(c)));
            match c {
                Command::Move(other, step) => {
                    let j = order_of(orders, other).unwrap();
                    let cell = orders[j].ship.position.offset(step);
                    assert(rest.navi.committed(cell) == Some(other));
                    assert(other != id);
                    assert(after.navi.committed(cell) == Some(other));
                },
                _ => {},
            }
        }
    }
}

/// A pass in good order stays in good order as long as none of its steps
/// clashes.
pub proof fn lemma_drain_keeps_order(
    t: TurnModel,
    orders: Seq<Order>,
    player: Player,
    map: GameMap,
    finishing: bool,
    fuel: nat,
)
    requires
        t.in_order(orders),
        t.clash_free(orders, player, map, finishing, fuel),
    ensures
        t.drain(orders, player, map, finishing, fuel).in_order(orders),
    decreases fuel,
{
    if fuel > 0 && t.queue.len() > 0 {
        lemma_step_keeps_order(t, orders, player, map, finishing);
        lemma_drain_keeps_order(
            t.step(orders, player, map, finishing),
            orders,
            player,
            map,
            finishing,
            (fuel - 1) as nat,
        );
    }
}

/// In a pass in good order no two commands land their ships on the same
/// cell.
pub proof fn lemma_recorded_moves_land_apart(t: TurnModel, orders: Seq<Order>, i: int, j: int)
    requires
        t.in_order(orders),
        0 <= i < j < t.commands.len(),
        t.landing(orders, t.commands[i]) is Some,
        t.landing(orders, t.commands[j]) is Some,
    ensures
        t.landing(orders, t.commands[i]) != t.landing(orders, t.commands[j]),
{
    let ids = order_ids(orders);
    let to = addressees(t.commands);
    let a = to[i];
    let b = to[j];
    assert(t.on_record(orders, t.commands[i]));
    assert(t.on_record(orders, t.commands[j]));
    if a == b {
        ids.lemma_multiset_has_no_duplicates();
        let rest = to.remove(j);
        assert(rest[i] == a);
        assert(rest.contains(a));
        assert(rest.to_multiset().count(a) > 0);
        assert(to.to_multiset().count(a) >= 2);
        assert(t.roll().count(a) >= 2);
        assert(ids.to_multiset().contains(a));
    }
    match (t.commands[i], t.commands[j]) {
        (Command::Move(_, da), Command::Move(_, db)) => {
            let ka = order_of(orders, a).unwrap();
            let kb = order_of(orders, b).unwrap();
            let pa = orders[ka].ship.position.offset(da);
            let pb = orders[kb].ship.position.offset(db);
            assert(t.navi.committed(pa) == Some(a));
            assert(t.navi.committed(pb) == Some(b));
        },
        _ => {},
    }
}

/// In the pass of a fresh turn for orders that are for different ships, as
/// long as no ship is committed to a cell that another ship has committed
/// to before, no two of the moves issued before the queue ran empty land on
/// the same cell. This holds at the end of the match too.
pub proof fn lemma_mutual_exclusion(
    start: TurnModel,
    orders: Seq<Order>,
    player: Player,
    map: GameMap,
    finishing: bool,
    fuel: nat,
)
    requires
        start.navi.wf(),
        start.fresh(),
        order_ids(orders).no_duplicates(),
        start.enqueue(orders).clash_free(orders, player, map, finishing, fuel),
    ensures
        start.enqueue(orders).drain(orders, player, map, finishing, fuel).lands_apart(orders),
{
    let queued = start.enqueue(orders);
    lemma_enqueue_is_in_order(start, orders);
    lemma_drain_keeps_order(queued, orders, player, map, finishing, fuel);
    let end = queued.drain(orders, player, map, finishing, fuel);
    assert forall|i: int, j: int|
        0 <= i < j < end.commands.len() && end.landing(orders, end.commands[i]) is Some
            && end.landing(orders, end.commands[j]) is Some implies end.landing(
        orders,
        #[trigger] end.commands[i],
    ) != end.landing(orders, #[trigger] end.commands[j]) by {
        lemma_recorded_moves_land_apart(end, orders, i, j);
    }
}

/// A fresh turn with the ships of the orders queued is in good order.
pub proof fn lemma_enqueue_is_in_order(start: TurnModel, orders: Seq<Order>)
    requires
        start.navi.wf(),
        start.fresh(),
        order_ids(orders).no_duplicates(),
    ensures
        start.enqueue(orders).in_order(orders),
        start.seated(orders) ==> start.enqueue(orders).seated(orders),
{
    let queued = start.enqueue(orders);
    assert(queued.queue =~= order_ids(orders));
    assert(addressees(queued.commands) =~= Seq::<ShipId>::empty());
    assert(waiters_of(queued.navi.waiting) =~= Seq::<ShipId>::empty());
    assert(queued.roll() =~= order_ids(orders).to_multiset());
}

/// In a pass in good order a ship that is queued or waits has no command
/// yet.
pub proof fn lemma_pending_has_no_command(t: TurnModel, orders: Seq<Order>, id: ShipId)
    requires
        t.in_order(orders),
        t.queue.contains(id) || waiters_of(t.navi.waiting).contains(id),
    ensures
        !addressees(t.commands).contains(id),
        order_ids(orders).contains(id),
{
    order_ids(orders).lemma_multiset_has_no_duplicates();
    assert(t.queue.to_multiset().count(id) > 0 || waiters_of(
        t.navi.waiting,
    ).to_multiset().count(id) > 0);
    assert(t.roll().count(id) > 0);
    assert(order_ids(orders).to_multiset().contains(id));
    assert(addressees(t.commands).to_multiset().count(id) == 0);
}

/// Outside the end of the match a step of a pass in good order, in which
/// every ship without a command holds its cell, does not clash, and every
/// ship without a command holds its cell afterwards.
pub proof fn lemma_step_keeps_seats(
    t: TurnModel,
    orders: Seq<Order>,
    player: Player,
    map: GameMap,
    finishing: bool,
)
    requires
        t.in_order(orders),
        t.seated(orders),
        t.queue.len() > 0,
        !finishing,
    ensures
        !t.step_clashes(orders, player, map, finishing),
        t.step(orders, player, map, finishing).in_order(orders),
        t.step(orders, player, map, finishing).seated(orders),
{
    let rest = t.popped();
    let id = t.queue.last();
    let after = t.step(orders, player, map, finishing);
    assert(t.queue.contains(id));
    lemma_pending_has_no_command(t, orders, id);
    lemma_order_of(orders, id);
    let k = order_of(orders, id).unwrap();
    let ship = orders[k].ship;
    let decision = rest.decision(orders[k], player, map, finishing);
    lemma_decision_is_orderly(rest, orders[k], player, map, finishing);
    assert(rest.navi.occupation_at(ship.position) == Some(Occupation::Me(id, false)));
    assert(ship.position.offset(Direction::Still) == ship.position);
    assert(!rest.clashes(ship, decision));
    lemma_step_keeps_order(t, orders, player, map, finishing);
    assert forall|n: int|
        0 <= n < orders.len() && !addressees(after.commands).contains(
            (#[trigger] orders[n]).ship.id,
        ) implies after.navi.occupation_at(orders[n].ship.position) == Some(
        Occupation::Me(orders[n].ship.id, false),
    ) by {
        let other = orders[n].ship;
        if addressees(t.commands).contains(other.id) {
            let i = choose|i: int|
                0 <= i < addressees(t.commands).len() && addressees(t.commands)[i] == other.id;
            assert(after.commands[i] == t.commands[i]);
            assert(addressees(after.commands)[i] == other.id);
        }
        assert(rest.navi.occupation_at(other.position) == Some(Occupation::Me(other.id, false)));
        match decision {
            MoveDecision::Final(d) => {
                let to = ship.position.offset(d);
                let last = after.commands.len() - 1;
                assert(after.commands[last] == Command::Move(id, d));
                assert(addressees(after.commands)[last] == id);
                assert(other.id != id);
                lemma_resolve_round_trip(rest.navi, id, ship.position, to);
                assert(rest.navi.normalize(other.position) != rest.navi.normalize(to));
                assert(rest.navi.normalize(other.position) != rest.navi.normalize(ship.position));
            },
            _ => {},
        }
    }
}

/// Outside the end of the match no step of a pass in good order, in which
/// every ship without a command holds its cell, clashes; the pass stays in
/// good order and the ships without a command keep their cells.
pub proof fn lemma_drain_keeps_seats(
    t: TurnModel,
    orders: Seq<Order>,
    player: Player,
    map: GameMap,
    finishing: bool,
    fuel: nat,
)
    requires
        t.in_order(orders),
        t.seated(orders),
        !finishing,
    ensures
        t.clash_free(orders, player, map, finishing, fuel),
        t.drain(orders, player, map, finishing, fuel).in_order(orders),
        t.drain(orders, player, map, finishing, fuel).seated(orders),
    decreases fuel,
{
    if fuel > 0 && t.queue.len() > 0 {
        lemma_step_keeps_seats(t, orders, player, map, finishing);
        lemma_drain_keeps_seats(
            t.step(orders, player, map, finishing),
            orders,
            player,
            map,
            finishing,
            (fuel - 1) as nat,
        );
    }
}

/// Mutual exclusion. Outside the end of the match, in the pass of a fresh
/// turn for orders that are for different ships, each of them entered in
/// the tracker as the undecided holder of its cell, no two of the moves
/// issued land on the same cell: neither two steps that were committed, nor
/// a committed step and the stay of a ship that waited to the end, nor two
/// such stays.
pub proof fn lemma_pass_is_exclusive(
    start: TurnModel,
    orders: Seq<Order>,
    player: Player,
    map: GameMap,
    finishing: bool,
)
    requires
        start.navi.wf(),
        start.fresh(),
        order_ids(orders).no_duplicates(),
        start.seated(orders),
        !finishing,
    ensures
        start.enqueue(orders).clash_free(orders, player, map, finishing, 3 * orders.len()),
        start.run(orders, player, map, finishing).lands_apart(orders),
{
    let fuel: nat = 3 * orders.len();
    let queued = start.enqueue(orders);
    lemma_enqueue_is_in_order(start, orders);
    lemma_drain_keeps_seats(queued, orders, player, map, finishing, fuel);
    let drained = queued.drain(orders, player, map, finishing, fuel);
    let end = drained.settle();
    let waiters = waiters_of(drained.navi.waiting);
    let n = drained.commands.len() as int;
    assert(end == start.run(orders, player, map, finishing));
    assert forall|i: int, j: int|
        0 <= i < j < end.commands.len() && end.landing(orders, end.commands[i]) is Some
            && end.landing(orders, end.commands[j]) is Some implies end.landing(
        orders,
        #[trigger] end.commands[i],
    ) != end.landing(orders, #[trigger] end.commands[j]) by {
        if j < n {
            assert(end.commands[i] == drained.commands[i]);
            assert(end.commands[j] == drained.commands[j]);
            lemma_recorded_moves_land_apart(drained, orders, i, j);
        } else {
            let w = waiters[j - n];
            assert(end.commands[j] == Command::Move(w, Direction::Still));
            assert(waiters.contains(w));
            lemma_pending_has_no_command(drained, orders, w);
            lemma_order_of(orders, w);
            let kw = order_of(orders, w).unwrap();
            let seat = orders[kw].ship.position;
            assert(seat.offset(Direction::Still) == seat);
            assert(drained.navi.occupation_at(seat) == Some(Occupation::Me(w, false)));
            if i < n {
                let c = drained.commands[i];
                assert(end.commands[i] == c);
                assert(drained.on_record(orders, c));
                match c {
                    Command::Move(a, d) => {
                        let ka = order_of(orders, a).unwrap();
                        let cell = orders[ka].ship.position.offset(d);
                        assert(drained.navi.committed(cell) == Some(a));
                        assert(drained.navi.committed(seat) is None);
                    },
                    _ => {},
                }
            } else {
                let v = waiters[i - n];
                assert(end.commands[i] == Command::Move(v, Direction::Still));
                assert(waiters.contains(v));
                lemma_pending_has_no_command(drained, orders, v);
                lemma_order_of(orders, v);
                let kv = order_of(orders, v).unwrap();
                let other = orders[kv].ship.position;
                assert(other.offset(Direction::Still) == other);
                assert(drained.navi.occupation_at(other) == Some(Occupation::Me(v, false)));
                if v == w {
                    order_ids(orders).lemma_multiset_has_no_duplicates();
                    let rest = waiters.remove(j - n);
                    assert(rest[i - n] == v);
                    assert(rest.contains(v));
                    assert(rest.to_multiset().count(v) > 0);
                    assert(waiters.to_multiset().count(v) >= 2);
                    assert(drained.roll().count(v) >= 2);
                    assert(order_ids(orders).to_multiset().contains(v));
                }
            }
        }
    }
}

/// The direction of the step that a decision is about, if it is about one.
pub open spec fn step_of(decision: MoveDecision) -> Option<Direction> {
    match decision {
        MoveDecision::Waiting(d, _) => Some(d),
        MoveDecision::Final(d) => Some(d),
        MoveDecision::Dropoff => None,
    }
}

/// Outside the end of the match a ship whose step leads onto the cell on
/// which a ship of the fleet sits undecided is made to wait for that ship.
pub proof fn lemma_blocked_step_waits(
    t: TurnModel,
    order: Order,
    player: Player,
    map: GameMap,
    finishing: bool,
    d: Direction,
    blocker: ShipId,
)
    requires
        !finishing,
        step_of(t.decision(order, player, map, finishing)) == Some(d),
        d != Direction::Still,
        t.navi.occupation_at(order.ship.position.offset(d)) == Some(
            Occupation::Me(blocker, false),
        ),
    ensures
        t.decision(order, player, map, finishing) == MoveDecision::Waiting(d, blocker),
        !t.navi.has_waiter(blocker),
{
    lemma_decision_is_orderly(t, order, player, map, finishing);
}

/// A step that makes the next ship wait for a blocker without a waiter
/// takes the ship off the queue and enters it in the waiting table, and
/// changes nothing else.
proof fn lemma_step_that_waits(
    t: TurnModel,
    orders: Seq<Order>,
    player: Player,
    map: GameMap,
    finishing: bool,
    k: int,
    d: Direction,
    blocker: ShipId,
)
    requires
        t.queue.len() > 0,
        order_of(orders, t.queue.last()) == Some(k),
        t.popped().decision(orders[k], player, map, finishing) == MoveDecision::Waiting(
            d,
            blocker,
        ),
        !t.navi.has_waiter(blocker),
    ensures
        t.step(orders, player, map, finishing) == (TurnModel {
            navi: NaviModel {
                waiting: t.navi.waiting.push((blocker, orders[k].ship.id)),
                ..t.navi
            },
            queue: t.queue.drop_last(),
            ..t
        }),
{
}

/// Of two orders for different ships each is the order of its ship.
proof fn lemma_order_of_pair(first: Order, second: Order)
    requires
        first.ship.id != second.ship.id,
    ensures
        order_of(seq![first, second], first.ship.id) == Some(0int),
        order_of(seq![first, second], second.ship.id) == Some(1int),
{
    reveal_with_fuel(order_of, 3);
    assert(seq![first, second].drop_last() =~= seq![first]);
}

/// A step of a queue that has run empty after it, taken by `drain` with
/// fuel to spare, is all that `drain` does.
proof fn lemma_drain_one_step(
    t: TurnModel,
    orders: Seq<Order>,
    player: Player,
    map: GameMap,
    finishing: bool,
    fuel: nat,
)
    requires
        fuel > 0,
        t.queue.len() > 0,
    ensures
        t.drain(orders, player, map, finishing, fuel) == t.step(
            orders,
            player,
            map,
            finishing,
        ).drain(orders, player, map, finishing, (fuel - 1) as nat),
        t.step(orders, player, map, finishing).queue.len() == 0 ==> t.drain(
            orders,
            player,
            map,
            finishing,
            fuel,
        ) == t.step(orders, player, map, finishing),
{
    reveal_with_fuel(TurnModel::drain, 2);
}

/// Whether the engine picks for the ship of `order`, as the turn stands, the
/// step in direction `d`, which is no stay and leads onto the cell on which
/// the ship `blocker` of the fleet sits undecided.
#[verifier::opaque]
pub open spec fn blocked_by(
    t: TurnModel,
    order: Order,
    player: Player,
    map: GameMap,
    finishing: bool,
    d: Direction,
    blocker: ShipId,
) -> bool {
    &&& step_of(t.decision(order, player, map, finishing)) == Some(d)
    &&& d != Direction::Still
    &&& t.navi.occupation_at(order.ship.position.offset(d)) == Some(
        Occupation::Me(blocker, false),
    )
}

/// The turn with the given waiting table in place of its own.
pub open spec fn with_waiting(start: TurnModel, table: Seq<(ShipId, ShipId)>) -> TurnModel {
    TurnModel { navi: NaviModel { waiting: table, ..start.navi }, ..start }
}

/// Deadlock safety. Outside the end of the match, when the fleet is two
/// ships and the engine picks for each of them a step onto the cell on
/// which the other sits undecided, each of them is made to wait for the
/// other, neither is committed anywhere, and the pass ends with the
/// command to stay for each of them, once, and with nobody waiting.
///
/// The second ship is decided first; the first ship is decided when the
/// second already waits for it.
pub proof fn lemma_mutual_block_settles(
    start: TurnModel,
    first: Order,
    second: Order,
    player: Player,
    map: GameMap,
    finishing: bool,
    first_step: Direction,
    second_step: Direction,
)
    requires
        start.fresh(),
        !finishing,
        first.ship.id != second.ship.id,
        blocked_by(start, second, player, map, finishing, second_step, first.ship.id),
        blocked_by(
            with_waiting(start, seq![(first.ship.id, second.ship.id)]),
            first,
            player,
            map,
            finishing,
            first_step,
            second.ship.id,
        ),
    ensures
        ({
            let end = start.run(seq![first, second], player, map, finishing);
            &&& end.commands == seq![
                Command::Move(second.ship.id, Direction::Still),
                Command::Move(first.ship.id, Direction::Still),
            ]
            &&& end.queue.len() == 0
            &&& end.navi.waiting.len() == 0
            &&& end.navi.cells == start.navi.cells
            &&& end.dropoffs == start.dropoffs
        }),
{
    lemma_first_of_two_waits(start, first, second, player, map, finishing, second_step);
    lemma_second_of_two_waits(start, first, second, player, map, finishing, first_step);
    lemma_two_waiting_steps_settle(start, first, second, player, map, finishing);
}

/// A pass of two steps, each of which makes a ship wait for the other, ends
/// with the command to stay for each of the two.
proof fn lemma_two_waiting_steps_settle(
    start: TurnModel,
    first: Order,
    second: Order,
    player: Player,
    map: GameMap,
    finishing: bool,
)
    requires
        start.fresh(),
        start.enqueue(seq![first, second]).step(seq![first, second], player, map, finishing) == (
        TurnModel {
            queue: seq![first.ship.id],
            ..with_waiting(start, seq![(first.ship.id, second.ship.id)])
        }),
        (TurnModel {
            queue: seq![first.ship.id],
            ..with_waiting(start, seq![(first.ship.id, second.ship.id)])
        }).step(seq![first, second], player, map, finishing) == with_waiting(
            start,
            seq![(first.ship.id, second.ship.id), (second.ship.id, first.ship.id)],
        ),
    ensures
        ({
            let end = start.run(seq![first, second], player, map, finishing);
            &&& end.commands == seq![
                Command::Move(second.ship.id, Direction::Still),
                Command::Move(first.ship.id, Direction::Still),
            ]
            &&& end.queue.len() == 0
            &&& end.navi.waiting.len() == 0
            &&& end.navi.cells == start.navi.cells
            &&& end.dropoffs == start.dropoffs
        }),
{
    let orders = seq![first, second];
    let a = first.ship.id;
    let b = second.ship.id;
    let queued = start.enqueue(orders);
    let waiting = TurnModel { queue: seq![a], ..with_waiting(start, seq![(a, b)]) };
    let stuck = with_waiting(start, seq![(a, b), (b, a)]);
    assert(queued.queue =~= seq![a, b]);
    lemma_drain_one_step(queued, orders, player, map, finishing, 6);
    lemma_drain_one_step(waiting, orders, player, map, finishing, 5);
    assert(queued.drain(orders, player, map, finishing, 6) == stuck);
    assert(stuck.settle().commands =~= seq![
        Command::Move(b, Direction::Still),
        Command::Move(a, Direction::Still),
    ]);
}

/// The ship decided first of two that block each other is made to wait.
proof fn lemma_first_of_two_waits(
    start: TurnModel,
    first: Order,
    second: Order,
    player: Player,
    map: GameMap,
    finishing: bool,
    second_step: Direction,
)
    requires
        start.fresh(),
        !finishing,
        first.ship.id != second.ship.id,
        blocked_by(start, second, player, map, finishing, second_step, first.ship.id),
    ensures
        start.enqueue(seq![first, second]).queue.len() > 0,
        start.enqueue(seq![first, second]).step(seq![first, second], player, map, finishing) == (
        TurnModel {
            queue: seq![first.ship.id],
            ..with_waiting(start, seq![(first.ship.id, second.ship.id)])
        }),
{
    reveal(blocked_by);
    let orders = seq![first, second];
    let a = first.ship.id;
    let b = second.ship.id;
    let queued = start.enqueue(orders);
    assert(queued.queue =~= seq![a, b]);
    assert(queued.queue.drop_last() =~= seq![a]);
    lemma_order_of_pair(first, second);
    let one = queued.popped();
    assert(one.navi == start.navi && one.dropoffs == start.dropoffs);
    lemma_blocked_step_waits(one, second, player, map, finishing, second_step, a);
    lemma_step_that_waits(queued, orders, player, map, finishing, 1, second_step, a);
    assert(start.navi.waiting.push((a, b)) =~= seq![(a, b)]);
}

/// The ship decided second of two that block each other is made to wait
/// too.
proof fn lemma_second_of_two_waits(
    start: TurnModel,
    first: Order,
    second: Order,
    player: Player,
    map: GameMap,
    finishing: bool,
    first_step: Direction,
)
    requires
        start.fresh(),
        !finishing,
        first.ship.id != second.ship.id,
        blocked_by(
            with_waiting(start, seq![(first.ship.id, second.ship.id)]),
            first,
            player,
            map,
            finishing,
            first_step,
            second.ship.id,
        ),
    ensures
        (TurnModel {
            queue: seq![first.ship.id],
            ..with_waiting(start, seq![(first.ship.id, second.ship.id)])
        }).step(seq![first, second], player, map, finishing) == with_waiting(
            start,
            seq![(first.ship.id, second.ship.id), (second.ship.id, first.ship.id)],
        ),
{
    reveal(blocked_by);
    let orders = seq![first, second];
    let a = first.ship.id;
    let b = second.ship.id;
    let table = seq![(a, b)];
    let waiting = TurnModel { queue: seq![a], ..with_waiting(start, table) };
    lemma_order_of_pair(first, second);
    let two = waiting.popped();
    assert(two.queue =~= start.queue);
    assert(two == with_waiting(start, table));
    lemma_blocked_step_waits(two, first, player, map, finishing, first_step, b);
    lemma_step_that_waits(waiting, orders, player, map, finishing, 0, first_step, b);
    assert(table.push((b, a)) =~= seq![(a, b), (b, a)]);
}

/// A turn in progress: the tracker, the work queue, the commands issued so
/// far and the places of delivery besides the shipyard.
pub struct Turn {
    pub navi: Navi,
    pub queue: Vec<ShipId>,
    pub commands: Vec<Command>,
    pub dropoffs: Vec<Position>,
}

impl View for Turn {
    type V = TurnModel;

    open spec fn view(&self) -> TurnModel {
        TurnModel {
            navi: self.navi@,
            queue: self.queue@,
            commands: self.commands@,
            dropoffs: self.dropoffs@,
        }
    }
}

/// The index of the last order that is for the ship `id`.
pub fn find_order(orders: &Vec<Order>, id: ShipId) -> (r: Option<usize>)
    ensures
        match r {
            Some(k) => order_of(orders@, id) == Some(k as int) && k < orders.len(),
            None => order_of(orders@, id) is None,
        },
{
    let mut i: usize = orders.len();
    proof {
        assert(orders@.take(i as int) =~= orders@);
    }
    while i > 0
        invariant
            0 <= i <= orders.len(),
            order_of(orders@, id) == order_of(orders@.take(i as int), id),
        decreases i,
    {
        i -= 1;
        proof {
            assert(orders@.take(i + 1).drop_last() =~= orders@.take(i as int));
        }
        if orders[i].ship.id == id {
            return Some(i);
        }
    }
    None
}

impl Turn {
    /// Starts a turn: the tracker is rebuilt from the ships on the grid, and
    /// nothing is queued or issued yet.
    pub fn begin(navi: Navi, dropoffs: Vec<Position>, ships: &Vec<Ship>, my_id: PlayerId) -> (r:
        Turn)
        requires
            navi.wf(),
        ensures
            r.navi.wf(),
            r@.fresh(),
            r@.navi == navi@.frame(ships@, my_id),
            r@.dropoffs == dropoffs@,
    {
        let mut navi = navi;
        navi.update_frame(ships, my_id);
        Turn { navi, queue: Vec::new(), commands: Vec::new(), dropoffs }
    }

    /// Carries out `decision` for `ship`.
    pub fn apply(&mut self, ship: &Ship, decision: MoveDecision)
        requires
            old(self).navi.wf(),
            ship.position.within_reach(1),
        ensures
            final(self).navi.wf(),
            final(self)@ == old(self)@.apply(*ship, decision),
    {
        match decision {
            MoveDecision::Waiting(_, blocking_ship) => {
                self.navi.record_waiting(blocking_ship, ship.id);
            },
            MoveDecision::Final(direction) => {
                let position = ship.position.directional_offset(direction);
                self.navi.resolve(ship, &position);
                match self.navi.take_waiter(&ship.id) {
                    Some(waiting_ship) => {
                        self.queue.push(waiting_ship);
                    },
                    None => {},
                }
                self.commands.push(ship.move_ship(direction));
            },
            MoveDecision::Dropoff => {
                self.commands.push(ship.make_dropoff());
                self.dropoffs.push(ship.position);
            },
        }
    }

    /// Decides the next ship in the queue and carries the decision out.
    pub fn step(&mut self, orders: &Vec<Order>, player: &Player, map: &GameMap, finishing: bool)
        requires
            old(self).navi.wf(),
            map.wf(),
            old(self)@.queue.len() > 0,
            forall|i: int| 0 <= i < orders.len() ==> (#[trigger] orders[i]).ship.position.within_reach(2),
        ensures
            final(self).navi.wf(),
            final(self)@ == old(self)@.step(orders@, *player, *map, finishing),
            order_ids(orders@).contains(old(self)@.queue.last()) ==> {
                &&& final(self)@.roll() == old(self)@.roll()
                &&& final(self)@.budget() < old(self)@.budget()
            },
    {
        let id = match self.queue.pop() {
            Some(id) => id,
            None => ShipId(0),
        };
        assert(self@ == old(self)@.popped());
        proof {
            lemma_order_of(orders@, id);
        }
        match find_order(orders, id) {
            Some(k) => {
                let order = &orders[k];
                let decision = match order.action {
                    ShipAction::Collecting => order.ship.collect_halite(
                        player,
                        map,
                        &self.navi,
                        &order.goal,
                    ),
                    _ => order.ship.drop_halite(player, map, &self.navi, &self.dropoffs, finishing),
                };
                proof {
                    assert(order_ids(orders@)[k as int] == id);
                    lemma_step_keeps_roll(old(self)@, orders@, *player, *map, finishing);
                }
                self.apply(&order.ship, decision);
            },
            None => {},
        }
    }

    /// Tells every ship that still waits to stay, and empties the waiting
    /// table.
    pub fn settle(&mut self)
        ensures
            final(self)@ == old(self)@.settle(),
            old(self).navi.wf() ==> final(self).navi.wf(),
    {
        let waiters = self.navi.drain_waiting();
        let mut i: usize = 0;
        assert(self.commands@ =~= old(self).commands@ + stationary(waiters@.take(0)));
        while i < waiters.len()
            invariant
                0 <= i <= waiters.len(),
                self.navi@ == old(self).navi@.idle(),
                self.queue == old(self).queue,
                self.dropoffs == old(self).dropoffs,
                self.commands@ == old(self).commands@ + stationary(waiters@.take(i as int)),
            decreases waiters.len() - i,
        {
            self.commands.push(Command::move_ship(waiters[i], Direction::Still));
            assert(self.commands@ =~= old(self).commands@ + stationary(waiters@.take(i + 1)));
            i += 1;
        }
        assert(waiters@.take(waiters.len() as int) =~= waiters@);
    }

    /// Runs the whole pass of a fresh turn for the ships of the orders. The
    /// ships are queued in the order of the orders, so the last one is
    /// decided first.
    ///
    /// Every ship of the orders ends up with exactly one command. Outside
    /// the end of the match, if the orders are for different ships and each
    /// of them is entered in the tracker as the undecided holder of its
    /// cell, no two of the moves land on the same cell.
    pub fn run(&mut self, orders: &Vec<Order>, player: &Player, map: &GameMap, finishing: bool)
        requires
            old(self).navi.wf(),
            old(self)@.fresh(),
            map.wf(),
            forall|i: int| 0 <= i < orders.len() ==> (#[trigger] orders[i]).ship.position.within_reach(2),
        ensures
            final(self).navi.wf(),
            final(self)@ == old(self)@.run(orders@, *player, *map, finishing),
            final(self)@.queue.len() == 0,
            final(self)@.navi.waiting.len() == 0,
            final(self)@.commands.len() == orders.len(),
            addressees(final(self)@.commands).to_multiset() == order_ids(orders@).to_multiset(),
            forall|i: int|
                0 <= i < final(self)@.commands.len() ==> #[trigger] final(self)@.commands[i]
                    != Command::Spawn,
            !finishing && order_ids(orders@).no_duplicates() && old(self)@.seated(orders@)
                ==> final(self)@.lands_apart(orders@),
    {
        let mut i: usize = 0;
        while i < orders.len()
            invariant
                0 <= i <= orders.len(),
                self.navi == old(self).navi,
                self.commands == old(self).commands,
                self.dropoffs == old(self).dropoffs,
                self.queue@ == order_ids(orders@.take(i as int)),
            decreases orders.len() - i,
        {
            self.queue.push(orders[i].ship.id);
            assert(self.queue@ =~= order_ids(orders@.take(i + 1)));
            i += 1;
        }
        proof {
            assert(orders@.take(orders.len() as int) =~= orders@);
            assert(old(self)@.queue + order_ids(orders@) =~= order_ids(orders@));
            assert(addressees(self@.commands) =~= Seq::<ShipId>::empty());
            assert(waiters_of(self@.navi.waiting) =~= Seq::<ShipId>::empty());
            assert(self@.roll() =~= order_ids(orders@).to_multiset());
        }
        let ghost start = self@;
        let ghost total: nat = (3 * orders.len()) as nat;
        let ghost mut fuel: nat = total;
        while self.queue.len() > 0
            invariant
                self.navi.wf(),
                map.wf(),
                forall|i: int|
                    0 <= i < orders.len() ==> (#[trigger] orders[i]).ship.position.within_reach(2),
                self@.roll() == order_ids(orders@).to_multiset(),
                self@.budget() <= fuel,
                start.drain(orders@, *player, *map, finishing, total) == self@.drain(
                    orders@,
                    *player,
                    *map,
                    finishing,
                    fuel,
                ),
            decreases fuel,
        {
            proof {
                let next = self@.queue.last();
                assert(self@.queue.contains(next));
                assert(self@.roll().count(next) > 0);
                assert(order_ids(orders@).contains(next));
            }
            self.step(orders, player, map, finishing);
            proof {
                fuel = (fuel - 1) as nat;
            }
        }
        self.settle();
        proof {
            lemma_pass_is_total(old(self)@, orders@, *player, *map, finishing);
            if !finishing && order_ids(orders@).no_duplicates() && old(self)@.seated(orders@) {
                lemma_pass_is_exclusive(old(self)@, orders@, *player, *map, finishing);
            }
        }
    }
}

/// Runs a whole turn: the tracker is rebuilt from the ships on the grid and
/// the pass is run for the ships of the orders.
pub fn run_turn(
    navi: Navi,
    dropoffs: Vec<Position>,
    ships: &Vec<Ship>,
    orders: &Vec<Order>,
    player: &Player,
    map: &GameMap,
    finishing: bool,
) -> (r: Turn)
    requires
        navi.wf(),
        map.wf(),
        forall|i: int| 0 <= i < orders.len() ==> (#[trigger] orders[i]).ship.position.within_reach(2),
    ensures
        r.navi.wf(),
        r@ == (TurnModel {
            navi: navi@.frame(ships@, player.id),
            queue: Seq::empty(),
            commands: Seq::empty(),
            dropoffs: dropoffs@,
        }).run(orders@, *player, *map, finishing),
        r@.commands.len() == orders.len(),
        addressees(r@.commands).to_multiset() == order_ids(orders@).to_multiset(),
        r@.queue.len() == 0,
        r@.navi.waiting.len() == 0,
        !finishing && order_ids(orders@).no_duplicates() && (TurnModel {
            navi: navi@.frame(ships@, player.id),
            queue: Seq::empty(),
            commands: Seq::empty(),
            dropoffs: dropoffs@,
        }).seated(orders@) ==> r@.lands_apart(orders@),
{
    let mut turn = Turn::begin(navi, dropoffs, ships, player.id);
    assert(turn@.queue =~= Seq::<ShipId>::empty());
    assert(turn@.commands =~= Seq::<Command>::empty());
    assert(turn@ == (TurnModel {
        navi: navi@.frame(ships@, player.id),
        queue: Seq::empty(),
        commands: Seq::empty(),
        dropoffs: dropoffs@,
    }));
    turn.run(orders, player, map, finishing);
    turn
}

/// A step issues no command to build a ship.
pub proof fn lemma_step_issues_no_spawn(
    t: TurnModel,
    orders: Seq<Order>,
    player: Player,
    map: GameMap,
    finishing: bool,
)
    requires
        forall|i: int| 0 <= i < t.commands.len() ==> #[trigger] t.commands[i] != Command::Spawn,
    ensures
        forall|i: int|
            0 <= i < t.step(orders, player, map, finishing).commands.len() ==> #[trigger] t.step(
                orders,
                player,
                map,
                finishing,
            ).commands[i] != Command::Spawn,
{
}

} // verus!
