//! Ships, and the engine that proposes a move for one ship.
//!
//! A proposal is made against the occupancy tracker as it stands: a move
//! onto a free cell is final, a move onto the cell of a ship of the fleet
//! that has not decided yet makes the ship wait for that ship.
use crate::command::Command;
use crate::direction::Direction;
use crate::game_map::{GameMap, Player};
use crate::ids::{PlayerId, ShipId};
use crate::navi::{Navi, NaviModel, Occupation};
use crate::position::Position;
use vstd::prelude::*;

verus! {

/// A ship as the turn's snapshot shows it.
#[derive(Copy, Clone, Debug)]
pub struct Ship {
    pub owner: PlayerId,
    pub id: ShipId,
    pub position: Position,
    /// The halite on board.
    pub halite: usize,
    /// The halite the ship can hold.
    pub max_halite: usize,
}

/// A step onto a safe cell, with what the tracker knows of that cell.
#[derive(Copy, Clone, Debug, PartialEq, Eq, Structural)]
pub struct SafeMove {
    pub direction: Direction,
    /// The holder of the cell the step leads to.
    pub blocking_ship: Option<Occupation>,
    /// The number of hostile ships next to that cell.
    pub threat_level: i32,
}

/// What the engine proposes for one ship.
#[derive(Copy, Clone, Debug, PartialEq, Eq, Structural)]
pub enum MoveDecision {
    /// The step leads onto the cell of the given ship, which has not decided
    /// yet: try again once it has.
    Waiting(Direction, ShipId),
    /// The step can be committed.
    Final(Direction),
    /// The ship turns itself into a place where halite is delivered.
    Dropoff,
}

impl SafeMove {
    pub open spec fn enemy_blocked(self) -> bool {
        self.blocking_ship matches Some(Occupation::Enemy(_))
    }

    /// The step in direction `d` from `from`, as the tracker sees it.
    pub open spec fn towards(navi: NaviModel, from: Position, d: Direction) -> SafeMove {
        let to = from.offset(d);
        SafeMove {
            direction: d,
            blocking_ship: navi.occupation_at(to),
            threat_level: navi.threats(to) as i32,
        }
    }

    /// What the step is worth to a collecting ship: the halite on the cell
    /// it leads to, counted three times for staying.
    pub open spec fn worth(self, map: GameMap, from: Position) -> int {
        let halite = map.richness(from.offset(self.direction)) as int;
        if self.direction == Direction::Still {
            3 * halite
        } else {
            halite
        }
    }

    /// Whether a collecting ship may take the step: no hostile ship is on
    /// its cell, and it is not a stay on a cell without halite.
    pub open spec fn eligible(self, map: GameMap, from: Position) -> bool {
        &&& !self.enemy_blocked()
        &&& !(self.direction == Direction::Still && self.worth(map, from) == 0)
    }

    /// Whether this is the step in its direction from `from` and leads onto
    /// a safe cell.
    pub open spec fn sound(self, navi: NaviModel, from: Position) -> bool {
        &&& self == Self::towards(navi, from, self.direction)
        &&& navi.is_safe(from.offset(self.direction))
    }
}

/// The steps from `from` in the given directions that lead onto safe cells,
/// in the order of the directions.
pub open spec fn safe_moves(navi: NaviModel, from: Position, directions: Seq<Direction>) -> Seq<
    SafeMove,
>
    decreases directions.len(),
{
    if directions.len() == 0 {
        Seq::empty()
    } else {
        let rest = safe_moves(navi, from, directions.drop_last());
        let d = directions.last();
        if navi.is_safe(from.offset(d)) {
            rest.push(SafeMove::towards(navi, from, d))
        } else {
            rest
        }
    }
}

/// Every step that `safe_moves` lists is sound and goes in one of the given
/// directions, and every given direction onto a safe cell is listed.
pub proof fn lemma_safe_moves(navi: NaviModel, from: Position, directions: Seq<Direction>)
    ensures
        safe_moves(navi, from, directions).len() <= directions.len(),
        forall|i: int|
            0 <= i < safe_moves(navi, from, directions).len() ==> {
                &&& (#[trigger] safe_moves(navi, from, directions)[i]).sound(navi, from)
                &&& directions.contains(safe_moves(navi, from, directions)[i].direction)
            },
        forall|j: int|
            0 <= j < directions.len() && navi.is_safe(from.offset(#[trigger] directions[j]))
                ==> safe_moves(navi, from, directions).contains(
                SafeMove::towards(navi, from, directions[j]),
            ),
    decreases directions.len(),
{
    if directions.len() > 0 {
        let front = directions.drop_last();
        let d = directions.last();
        lemma_safe_moves(navi, from, front);
        let rest = safe_moves(navi, from, front);
        let all = safe_moves(navi, from, directions);
        assert forall|i: int| 0 <= i < all.len() implies {
            &&& (#[trigger] all[i]).sound(navi, from)
            &&& directions.contains(all[i].direction)
        } by {
            if i < rest.len() {
                assert(all[i] == rest[i]);
                let k = choose|k: int| 0 <= k < front.len() && front[k] == rest[i].direction;
                assert(directions[k] == all[i].direction);
            } else {
                assert(directions[directions.len() - 1] == d);
            }
        }
        assert forall|j: int|
            0 <= j < directions.len() && navi.is_safe(
                from.offset(#[trigger] directions[j]),
            ) implies all.contains(SafeMove::towards(navi, from, directions[j])) by {
            let m = SafeMove::towards(navi, from, directions[j]);
            if j < front.len() {
                assert(front[j] == directions[j]);
                let k = choose|k: int| 0 <= k < rest.len() && rest[k] == m;
                assert(all[k] == m);
            } else {
                assert(all[all.len() - 1] == m);
            }
        }
    }
}

/// The first of the steps with the least threat among those that are
/// blocked by a hostile ship (`hostile`) or among those that are not
/// (`!hostile`).
pub open spec fn least_threat(moves: Seq<SafeMove>, hostile: bool) -> Option<int>
    decreases moves.len(),
{
    if moves.len() == 0 {
        None
    } else {
        let rest = least_threat(moves.drop_last(), hostile);
        let m = moves.last();
        if m.enemy_blocked() != hostile {
            rest
        } else {
            match rest {
                Some(i) => if m.threat_level < moves[i].threat_level {
                    Some(moves.len() - 1)
                } else {
                    Some(i)
                },
                None => Some(moves.len() - 1),
            }
        }
    }
}

/// What `least_threat` picks: a step of the asked kind that no step of that
/// kind undercuts and no earlier one equals in threat; nothing only if
/// there is no step of that kind.
pub proof fn lemma_least_threat(moves: Seq<SafeMove>, hostile: bool)
    ensures
        match least_threat(moves, hostile) {
            Some(i) => {
                &&& 0 <= i < moves.len()
                &&& moves[i].enemy_blocked() == hostile
                &&& forall|j: int|
                    0 <= j < moves.len() && (#[trigger] moves[j]).enemy_blocked() == hostile
                        ==> moves[i].threat_level <= moves[j].threat_level
                &&& forall|j: int|
                    0 <= j < i && (#[trigger] moves[j]).enemy_blocked() == hostile
                        ==> moves[i].threat_level < moves[j].threat_level
            },
            None => forall|j: int|
                0 <= j < moves.len() ==> (#[trigger] moves[j]).enemy_blocked() != hostile,
        },
    decreases moves.len(),
{
    if moves.len() > 0 {
        let front = moves.drop_last();
        lemma_least_threat(front, hostile);
        assert(forall|j: int| 0 <= j < front.len() ==> front[j] == moves[j]);
    }
}

/// The eligible step that is worth most. Of two that are worth the same the
/// earlier one is kept, unless it is a stay: then the later one is taken.
pub open spec fn best_move(map: GameMap, from: Position, moves: Seq<SafeMove>) -> Option<int>
    decreases moves.len(),
{
    if moves.len() == 0 {
        None
    } else {
        let rest = best_move(map, from, moves.drop_last());
        let m = moves.last();
        if !m.eligible(map, from) {
            rest
        } else {
            match rest {
                Some(i) => if moves[i].worth(map, from) < m.worth(map, from) || (moves[i].worth(
                    map,
                    from,
                ) == m.worth(map, from) && moves[i].direction == Direction::Still) {
                    Some(moves.len() - 1)
                } else {
                    Some(i)
                },
                None => Some(moves.len() - 1),
            }
        }
    }
}

/// What `best_move` picks: an eligible step that no eligible step exceeds
/// in worth, and among those of that worth the first that is no stay, if
/// there is one; nothing only if no step is eligible.
pub proof fn lemma_best_move(map: GameMap, from: Position, moves: Seq<SafeMove>)
    ensures
        match best_move(map, from, moves) {
            Some(i) => {
                &&& 0 <= i < moves.len()
                &&& moves[i].eligible(map, from)
                &&& forall|j: int|
                    0 <= j < moves.len() && (#[trigger] moves[j]).eligible(map, from)
                        ==> moves[j].worth(map, from) <= moves[i].worth(map, from)
                &&& forall|j: int|
                    0 <= j < moves.len() && (#[trigger] moves[j]).eligible(map, from)
                        && moves[j].worth(map, from) == moves[i].worth(map, from)
                        && moves[j].direction != Direction::Still ==> i <= j && moves[i].direction
                        != Direction::Still
            },
            None => forall|j: int|
                0 <= j < moves.len() ==> !(#[trigger] moves[j]).eligible(map, from),
        },
    decreases moves.len(),
{
    if moves.len() > 0 {
        let front = moves.drop_last();
        lemma_best_move(map, from, front);
        assert(forall|j: int| 0 <= j < front.len() ==> front[j] == moves[j]);
    }
}

/// The directions of `all` that are not among `tried`, in the order of
/// `all`.
pub open spec fn untried(all: Seq<Direction>, tried: Seq<Direction>) -> Seq<Direction>
    decreases all.len(),
{
    if all.len() == 0 {
        Seq::empty()
    } else if tried.contains(all.last()) {
        untried(all.drop_last(), tried)
    } else {
        untried(all.drop_last(), tried).push(all.last())
    }
}

/// The place of delivery nearest to `from`: the shipyard, or the first of
/// `dropoffs` that is nearer than the shipyard and every place before it.
pub open spec fn nearest_dropoff(
    map: GameMap,
    from: Position,
    shipyard: Position,
    dropoffs: Seq<Position>,
) -> Position
    decreases dropoffs.len(),
{
    if dropoffs.len() == 0 {
        shipyard
    } else {
        let a = nearest_dropoff(map, from, shipyard, dropoffs.drop_last());
        let b = dropoffs.last();
        if map.distance(a, from) > map.distance(b, from) {
            b
        } else {
            a
        }
    }
}

/// The nearest place of delivery is the shipyard or one of the dropoffs,
/// and none of them is nearer.
pub proof fn lemma_nearest_dropoff(
    map: GameMap,
    from: Position,
    shipyard: Position,
    dropoffs: Seq<Position>,
)
    ensures
        nearest_dropoff(map, from, shipyard, dropoffs) == shipyard || dropoffs.contains(
            nearest_dropoff(map, from, shipyard, dropoffs),
        ),
        map.distance(nearest_dropoff(map, from, shipyard, dropoffs), from) <= map.distance(
            shipyard,
            from,
        ),
        forall|i: int|
            0 <= i < dropoffs.len() ==> map.distance(
                nearest_dropoff(map, from, shipyard, dropoffs),
                from,
            ) <= map.distance(#[trigger] dropoffs[i], from),
    decreases dropoffs.len(),
{
    if dropoffs.len() > 0 {
        let front = dropoffs.drop_last();
        lemma_nearest_dropoff(map, from, shipyard, front);
        assert(forall|j: int| 0 <= j < front.len() ==> front[j] == dropoffs[j]);
        let a = nearest_dropoff(map, from, shipyard, front);
        if a != shipyard {
            let k = choose|k: int| 0 <= k < front.len() && front[k] == a;
            assert(dropoffs[k] == a);
        }
        assert(dropoffs[dropoffs.len() - 1] == dropoffs.last());
    }
}

/// The halite on the cell that the coordinates `(x, y)` name.
pub open spec fn halite_at(map: GameMap, x: int, y: int) -> int {
    map.richness(Position { x: x as i32, y: y as i32 }) as int
}

/// Whether `(x, y)` lies in the square of the given radius around `centre`.
pub open spec fn in_window(centre: Position, radius: int, x: int, y: int) -> bool {
    &&& centre.x - radius <= x <= centre.x + radius
    &&& centre.y - radius <= y <= centre.y + radius
}

/// Whether a scan by columns, each from the top, comes to `(x1, y1)` before
/// it comes to `(x2, y2)`.
pub open spec fn scanned_before(x1: int, y1: int, x2: int, y2: int) -> bool {
    x1 < x2 || (x1 == x2 && y1 < y2)
}

/// Whether `found` is what a scan of the square of the given radius around
/// `centre` makes of the goal: the goal as it was (the origin, counted as
/// bare, if there was none) if no cell of the square holds more halite than
/// it; else the cell of the square with the most halite, the first such
/// cell in a scan by columns.
pub open spec fn scan_result(
    map: GameMap,
    centre: Position,
    radius: int,
    goal: Option<&Position>,
    found: Position,
) -> bool {
    let kept = match goal {
        Some(g) => *g,
        None => Position { x: 0, y: 0 },
    };
    let kept_halite = match goal {
        Some(g) => map.richness(*g) as int,
        None => 0,
    };
    ||| {
        &&& found == kept
        &&& forall|x: int, y: int|
            in_window(centre, radius, x, y) ==> #[trigger] halite_at(map, x, y) <= kept_halite
    }
    ||| {
        &&& in_window(centre, radius, found.x as int, found.y as int)
        &&& kept_halite < map.richness(found)
        &&& forall|x: int, y: int|
            in_window(centre, radius, x, y) ==> #[trigger] halite_at(map, x, y) <= map.richness(
                found,
            )
        &&& forall|x: int, y: int|
            in_window(centre, radius, x, y) && scanned_before(x, y, found.x as int, found.y as int)
                ==> #[trigger] halite_at(map, x, y) < map.richness(found)
    }
}

/// A tenth of `halite`, rounded to the nearest whole, halves upwards.
pub open spec fn tenth(halite: int) -> int {
    (halite + 5) / 10
}

/// The banked halite that, together with what the ship carries and what
/// lies under it, pays for turning the ship into a dropoff.
pub const DROPOFF_COST: usize = 4000;

impl MoveDecision {
    /// What becomes of a chosen step: staying is final; a step onto the cell
    /// of a ship of the fleet makes the ship wait for it, unless the ship is
    /// entered as that ship's waiter already, in which case the step is
    /// final and nothing is entered twice; any other step is final.
    pub open spec fn decided(navi: NaviModel, ship: ShipId, mv: SafeMove) -> MoveDecision {
        if mv.direction == Direction::Still {
            MoveDecision::Final(mv.direction)
        } else {
            match mv.blocking_ship {
                Some(Occupation::Me(blocker, _)) => if navi.waiter_of(blocker) == Some(ship) {
                    MoveDecision::Final(mv.direction)
                } else {
                    MoveDecision::Waiting(mv.direction, blocker)
                },
                _ => MoveDecision::Final(mv.direction),
            }
        }
    }

    pub fn decide(ship: &Ship, mv: &SafeMove, navi: &Navi) -> (r: MoveDecision)
        ensures
            r == Self::decided(navi@, ship.id, *mv),
    {
        if mv.direction == Direction::Still {
            MoveDecision::Final(mv.direction)
        } else {
            match mv.blocking_ship {
                Some(Occupation::Me(blocker, _)) => {
                    let entered = match navi.waiting_ship(&blocker) {
                        Some(waiter) => waiter == ship.id,
                        None => false,
                    };
                    if entered {
                        MoveDecision::Final(mv.direction)
                    } else {
                        MoveDecision::Waiting(mv.direction, blocker)
                    }
                },
                _ => MoveDecision::Final(mv.direction),
            }
        }
    }
}

/// A sound step never makes a ship wait for a blocker that another ship
/// already waits for, nor for a ship that has committed its move; it is
/// final only if it is a stay or leads onto a free cell or onto a hostile
/// ship; and whatever is decided keeps the step's direction.
pub proof fn lemma_decided_of_sound(navi: NaviModel, from: Position, ship: ShipId, mv: SafeMove)
    requires
        mv.sound(navi, from),
    ensures
        match MoveDecision::decided(navi, ship, mv) {
            MoveDecision::Waiting(d, blocker) => {
                &&& d == mv.direction
                &&& d != Direction::Still
                &&& !navi.has_waiter(blocker)
                &&& navi.occupation_at(from.offset(d)) == Some(Occupation::Me(blocker, false))
            },
            MoveDecision::Final(d) => {
                &&& d == mv.direction
                &&& d == Direction::Still || mv.enemy_blocked() || navi.occupation_at(
                    from.offset(d),
                ) is None
            },
            MoveDecision::Dropoff => false,
        },
{
}

/// The number of hostile ships on the four neighbours of `position`.
pub fn check_for_threats(position: &Position, navi: &Navi) -> (r: i32)
    requires
        navi.wf(),
        position.within_reach(1),
    ensures
        r == navi@.threats(*position),
        0 <= r <= 4,
{
    let mut threats: i32 = 0;
    if navi.is_hostile(&position.directional_offset(Direction::North)) {
        threats += 1;
    }
    if navi.is_hostile(&position.directional_offset(Direction::South)) {
        threats += 1;
    }
    if navi.is_hostile(&position.directional_offset(Direction::East)) {
        threats += 1;
    }
    if navi.is_hostile(&position.directional_offset(Direction::West)) {
        threats += 1;
    }
    threats
}

/// The index of the first of the steps with the least threat among those
/// that are blocked by a hostile ship (`hostile`) or among those that are
/// not (`!hostile`).
pub fn pick_least_threat(moves: &Vec<SafeMove>, hostile: bool) -> (r: Option<usize>)
    ensures
        match r {
            Some(i) => least_threat(moves@, hostile) == Some(i as int) && i < moves.len(),
            None => least_threat(moves@, hostile) is None,
        },
{
    let mut best: Option<usize> = None;
    let mut i: usize = 0;
    proof {
        assert(moves@.take(0) =~= Seq::<SafeMove>::empty());
    }
    while i < moves.len()
        invariant
            0 <= i <= moves.len(),
            match best {
                Some(b) => least_threat(moves@.take(i as int), hostile) == Some(b as int) && b < i,
                None => least_threat(moves@.take(i as int), hostile) is None,
            },
        decreases moves.len() - i,
    {
        proof {
            assert(moves@.take(i + 1).drop_last() =~= moves@.take(i as int));
        }
        let blocked = match moves[i].blocking_ship {
            Some(Occupation::Enemy(_)) => true,
            _ => false,
        };
        if blocked == hostile {
            match best {
                Some(b) => {
                    if moves[i].threat_level < moves[b].threat_level {
                        best = Some(i);
                    }
                },
                None => {
                    best = Some(i);
                },
            }
        }
        i += 1;
    }
    proof {
        assert(moves@.take(moves.len() as int) =~= moves@);
    }
    best
}

impl Ship {
    /// A ship from the fields of its line in the turn's snapshot.
    pub fn generate(
        id: usize,
        x: i32,
        y: i32,
        halite: usize,
        player_id: PlayerId,
        max_halite: usize,
    ) -> (r: Ship)
        ensures
            r.owner == player_id,
            r.id == ShipId(id),
            r.position == (Position { x, y }),
            r.halite == halite,
            r.max_halite == max_halite,
    {
        Ship { owner: player_id, id: ShipId(id), position: Position { x, y }, halite, max_halite }
    }

    pub fn is_full(&self) -> (r: bool)
        ensures
            r == (self.halite >= self.max_halite),
    {
        self.halite >= self.max_halite
    }

    /// Whether the ship holds at least `percentage` hundredths of what it
    /// can hold, the threshold rounded down.
    pub fn is_full_by(&self, percentage: usize) -> (r: bool)
        ensures
            r == (self.halite >= (self.max_halite * percentage) / 100),
    {
        let capacity: u128 = self.max_halite as u128;
        let share: u128 = percentage as u128;
        assert(capacity * share <= 0xffff_ffff_ffff_ffff * 0xffff_ffff_ffff_ffff) by (nonlinear_arith)
            requires
                0 <= capacity <= 0xffff_ffff_ffff_ffff,
                0 <= share <= 0xffff_ffff_ffff_ffff,
        ;
        (self.halite as u128) >= capacity * share / 100
    }

    pub fn make_dropoff(&self) -> (r: Command)
        ensures
            r == Command::Dropoff(self.id),
    {
        Command::transform_ship_into_dropoff_site(self.id)
    }

    pub fn move_ship(&self, direction: Direction) -> (r: Command)
        ensures
            r == Command::Move(self.id, direction),
    {
        Command::move_ship(self.id, direction)
    }

    pub fn stay_still(&self) -> (r: Command)
        ensures
            r == Command::Move(self.id, Direction::Still),
    {
        Command::move_ship(self.id, Direction::Still)
    }

    /// Looks for a better goal in the square of the given radius around the
    /// ship.
    ///
    /// The goal stays as it is (the origin, counted as bare, if there is
    /// none) unless a cell of the square holds more halite than it; then
    /// the new goal is the cell of the square with the most halite, the
    /// first such cell in a scan by columns.
    pub fn scan_for_goal(&self, radius: i32, map: &GameMap, _navi: &Navi, goal: Option<&Position>)
        -> (r: Position)
        requires
            map.wf(),
            radius >= 0 ==> self.position.within_reach(radius as int),
        ensures
            scan_result(*map, self.position, radius as int, goal, r),
    {
        let (kept, kept_halite): (Position, usize) = match goal {
            Some(g) => (*g, map.at_position(g)),
            None => (Position { x: 0, y: 0 }, 0),
        };
        let mut best = kept;
        let mut best_halite = kept_halite;
        if radius < 0 {
            return best;
        }
        let ghost centre = self.position;
        let ghost reach = radius as int;
        let ghost mut moved = false;
        let last_x: i32 = self.position.x + radius;
        let last_y: i32 = self.position.y + radius;
        let mut x: i32 = self.position.x - radius;
        let mut more_x = true;
        while more_x
            invariant
                map.wf(),
                centre == self.position,
                reach == radius,
                radius >= 0,
                self.position.within_reach(reach),
                last_x == centre.x + reach,
                last_y == centre.y + reach,
                centre.x - reach <= x <= last_x,
                !moved ==> best == kept && best_halite == kept_halite,
                moved ==> {
                    &&& in_window(centre, reach, best.x as int, best.y as int)
                    &&& best_halite == map.richness(best)
                    &&& kept_halite < best_halite
                    &&& forall|a: int, b: int|
                        in_window(centre, reach, a, b) && scanned_before(
                            a,
                            b,
                            best.x as int,
                            best.y as int,
                        ) ==> #[trigger] halite_at(*map, a, b) < best_halite
                },
                kept_halite <= best_halite,
                more_x ==> forall|a: int, b: int|
                    in_window(centre, reach, a, b) && a < x ==> #[trigger] halite_at(*map, a, b)
                        <= best_halite,
                !more_x ==> forall|a: int, b: int|
                    in_window(centre, reach, a, b) ==> #[trigger] halite_at(*map, a, b)
                        <= best_halite,
            decreases last_x - x + if more_x { 1int } else { 0int },
        {
            let mut y: i32 = self.position.y - radius;
            let mut more_y = true;
            while more_y
                invariant
                    map.wf(),
                    centre == self.position,
                    reach == radius,
                    radius >= 0,
                    self.position.within_reach(reach),
                    last_x == centre.x + reach,
                    last_y == centre.y + reach,
                    centre.x - reach <= x <= last_x,
                    centre.y - reach <= y <= last_y,
                    !moved ==> best == kept && best_halite == kept_halite,
                    moved ==> {
                        &&& in_window(centre, reach, best.x as int, best.y as int)
                        &&& best_halite == map.richness(best)
                        &&& kept_halite < best_halite
                        &&& forall|a: int, b: int|
                            in_window(centre, reach, a, b) && scanned_before(
                                a,
                                b,
                                best.x as int,
                                best.y as int,
                            ) ==> #[trigger] halite_at(*map, a, b) < best_halite
                    },
                    kept_halite <= best_halite,
                    forall|a: int, b: int|
                        in_window(centre, reach, a, b) && a < x ==> #[trigger] halite_at(*map, a, b)
                            <= best_halite,
                    more_y ==> forall|b: int|
                        centre.y - reach <= b < y ==> #[trigger] halite_at(*map, x as int, b)
                            <= best_halite,
                    !more_y ==> forall|b: int|
                        centre.y - reach <= b <= last_y ==> #[trigger] halite_at(*map, x as int, b)
                            <= best_halite,
                decreases last_y - y + if more_y { 1int } else { 0int },
            {
                let position = Position { x, y };
                let halite = map.at_position(&position);
                assert(halite == halite_at(*map, x as int, y as int));
                if best_halite < halite {
                    best_halite = halite;
                    best = position;
                    proof {
                        moved = true;
                    }
                }
                if y < last_y {
                    y += 1;
                } else {
                    more_y = false;
                }
            }
            if x < last_x {
                x += 1;
            } else {
                more_x = false;
            }
        }
        best
    }

    /// The steps in the given directions that lead onto safe cells, each
    /// with the holder of its cell and the threat next to it.
    pub fn get_safe_moves(&self, directions: &Vec<Direction>, navi: &Navi) -> (r: Vec<SafeMove>)
        requires
            navi.wf(),
            self.position.within_reach(2),
        ensures
            r@ == safe_moves(navi@, self.position, directions@),
    {
        let mut r: Vec<SafeMove> = Vec::new();
        let mut i: usize = 0;
        proof {
            assert(directions@.take(0) =~= Seq::<Direction>::empty());
        }
        while i < directions.len()
            invariant
                0 <= i <= directions.len(),
                navi.wf(),
                self.position.within_reach(2),
                r@ == safe_moves(navi@, self.position, directions@.take(i as int)),
            decreases directions.len() - i,
        {
            proof {
                assert(directions@.take(i + 1).drop_last() =~= directions@.take(i as int));
            }
            let direction = directions[i];
            let position = self.position.directional_offset(direction);
            if navi.is_safe(&position) {
                let blocking_ship = navi.occupation_at(&position);
                let threat_level = check_for_threats(&position, navi);
                r.push(SafeMove { direction, blocking_ship, threat_level });
            }
            i += 1;
        }
        proof {
            assert(directions@.take(directions.len() as int) =~= directions@);
        }
        r
    }
}

impl MoveDecision {
    /// Whether the proposal was made with due regard to the tracker: a ship
    /// waits only for a ship of the fleet that sits undecided on the cell
    /// of the step and has no waiter yet.
    pub open spec fn orderly(self, navi: NaviModel, from: Position) -> bool {
        match self {
            MoveDecision::Waiting(d, blocker) => {
                &&& d != Direction::Still
                &&& !navi.has_waiter(blocker)
                &&& navi.occupation_at(from.offset(d)) == Some(Occupation::Me(blocker, false))
            },
            _ => true,
        }
    }

    /// Whether a final step other than staying leads onto a free cell.
    pub open spec fn careful(self, navi: NaviModel, from: Position) -> bool {
        match self {
            MoveDecision::Final(d) => d == Direction::Still || navi.occupation_at(from.offset(d))
                is None,
            _ => true,
        }
    }

    /// What becomes of the pick `best` among `safe`: the decision on the
    /// picked step, or staying if nothing was picked.
    pub open spec fn of_pick(navi: NaviModel, ship: ShipId, safe: Seq<SafeMove>, best: Option<int>)
        -> MoveDecision {
        match best {
            Some(i) => Self::decided(navi, ship, safe[i]),
            None => MoveDecision::Final(Direction::Still),
        }
    }
}

impl Ship {
    /// The proposal for a ship that heads for `target` to deliver.
    ///
    /// With no step to take the ship stays. At the end of the match
    /// (`finishing`) a step that lands on the target is taken whoever holds
    /// the target. Otherwise the ship takes the safe step towards the target
    /// with the least threat that no hostile ship blocks; if hostile ships
    /// block all of them, it sidesteps the one with the least threat at a
    /// right angle, again by the least threat; and if nothing is left it
    /// stays.
    pub open spec fn homeward(self, navi: NaviModel, target: Position, finishing: bool)
        -> MoveDecision {
        let moves = navi.unsafe_moves(self.position, target);
        if moves.len() == 0 {
            MoveDecision::Final(Direction::Still)
        } else if finishing && navi.normalize(self.position.offset(moves[0])) == navi.normalize(
            target,
        ) {
            MoveDecision::Final(moves[0])
        } else {
            let safe = safe_moves(navi, self.position, moves);
            match least_threat(safe, false) {
                Some(i) => MoveDecision::decided(navi, self.id, safe[i]),
                None => match least_threat(safe, true) {
                    Some(e) => {
                        let side = safe_moves(
                            navi,
                            self.position,
                            safe[e].direction.orthogonal(),
                        );
                        MoveDecision::of_pick(navi, self.id, side, least_threat(side, false))
                    },
                    None => MoveDecision::Final(Direction::Still),
                },
            }
        }
    }

    /// Whether the ship should turn itself into a dropoff rather than
    /// travel to `target`: the way is longer than a third of the grid's
    /// width, and the banked halite, the cargo and the halite under the ship
    /// together pay for it.
    pub open spec fn converts(self, player: Player, map: GameMap, target: Position) -> bool {
        &&& map.distance(target, self.position) > map.spec_width() / 3
        &&& player.halite + self.halite + map.richness(self.position) >= DROPOFF_COST
    }

    /// The proposal for a ship that delivers its cargo.
    pub open spec fn drop_decision(
        self,
        player: Player,
        map: GameMap,
        navi: NaviModel,
        dropoffs: Seq<Position>,
        finishing: bool,
    ) -> MoveDecision {
        let target = nearest_dropoff(map, self.position, player.shipyard, dropoffs);
        if self.converts(player, map, target) {
            MoveDecision::Dropoff
        } else {
            self.homeward(navi, target, finishing)
        }
    }

    /// The directions a collecting ship tries first: those towards the
    /// goal, and staying unless the ship is at the shipyard.
    pub open spec fn goal_moves(self, player: Player, navi: NaviModel, goal: Position) -> Seq<
        Direction,
    > {
        let toward = navi.unsafe_moves(self.position, goal);
        if navi.normalize(self.position) != navi.normalize(player.shipyard) {
            toward.push(Direction::Still)
        } else {
            toward
        }
    }

    /// The proposal for a ship that collects halite on its way to `goal`.
    ///
    /// A ship that carries less than a tenth of what lies under it stays.
    /// Otherwise it takes the best of the first directions, or else the
    /// best of all other directions, or else stays.
    pub open spec fn collect_decision(
        self,
        player: Player,
        map: GameMap,
        navi: NaviModel,
        goal: Position,
    ) -> MoveDecision {
        if self.halite < tenth(map.richness(self.position) as int) {
            MoveDecision::Final(Direction::Still)
        } else {
            let first = self.goal_moves(player, navi, goal);
            let safe = safe_moves(navi, self.position, first);
            match best_move(map, self.position, safe) {
                Some(i) => MoveDecision::decided(navi, self.id, safe[i]),
                None => {
                    let other = safe_moves(
                        navi,
                        self.position,
                        untried(Direction::all(), first),
                    );
                    MoveDecision::of_pick(
                        navi,
                        self.id,
                        other,
                        best_move(map, self.position, other),
                    )
                },
            }
        }
    }

    /// The nearest place of delivery and its distance from the ship.
    pub fn find_nearest_dropoff(
        &self,
        shipyard: &Position,
        map: &GameMap,
        dropoffs: &Vec<Position>,
    ) -> (r: (Position, usize))
        requires
            map.wf(),
        ensures
            r.0 == nearest_dropoff(*map, self.position, *shipyard, dropoffs@),
            r.1 == map.distance(r.0, self.position),
    {
        let mut nearest = *shipyard;
        let mut distance = map.calculate_distance(shipyard, &self.position);
        let mut i: usize = 0;
        proof {
            assert(dropoffs@.take(0) =~= Seq::<Position>::empty());
        }
        while i < dropoffs.len()
            invariant
                0 <= i <= dropoffs.len(),
                map.wf(),
                nearest == nearest_dropoff(
                    *map,
                    self.position,
                    *shipyard,
                    dropoffs@.take(i as int),
                ),
                distance == map.distance(nearest, self.position),
            decreases dropoffs.len() - i,
        {
            proof {
                assert(dropoffs@.take(i + 1).drop_last() =~= dropoffs@.take(i as int));
            }
            let other = map.calculate_distance(&dropoffs[i], &self.position);
            if distance > other {
                nearest = dropoffs[i];
                distance = other;
            }
            i += 1;
        }
        proof {
            assert(dropoffs@.take(dropoffs.len() as int) =~= dropoffs@);
        }
        (nearest, distance)
    }

    /// Proposes a move for a ship that delivers its cargo.
    pub fn drop_halite(
        &self,
        player: &Player,
        map: &GameMap,
        navi: &Navi,
        dropoffs: &Vec<Position>,
        finishing: bool,
    ) -> (r: MoveDecision)
        requires
            map.wf(),
            navi.wf(),
            self.position.within_reach(2),
        ensures
            r == self.drop_decision(*player, *map, navi@, dropoffs@, finishing),
            r.orderly(navi@, self.position),
            !finishing ==> r.careful(navi@, self.position),
    {
        proof {
            lemma_drop_decision(*self, *player, *map, navi@, dropoffs@, finishing);
        }
        let (target, distance) = self.find_nearest_dropoff(&player.shipyard, map, dropoffs);
        let funds: u128 = player.halite as u128 + self.halite as u128 + map.at_entity(self) as u128;
        if distance > map.width() / 3 && funds >= DROPOFF_COST as u128 {
            return MoveDecision::Dropoff;
        }
        let unsafe_moves = navi.get_unsafe_moves(&self.position, &target);
        if unsafe_moves.len() == 0 {
            return MoveDecision::Final(Direction::Still);
        }
        if finishing {
            let landing = navi.normalize(&self.position.directional_offset(unsafe_moves[0]));
            let home = navi.normalize(&target);
            if landing == home {
                return MoveDecision::Final(unsafe_moves[0]);
            }
        }
        let safe = self.get_safe_moves(&unsafe_moves, navi);
        match pick_least_threat(&safe, false) {
            Some(i) => MoveDecision::decide(self, &safe[i], navi),
            None => match pick_least_threat(&safe, true) {
                Some(e) => {
                    let sideways = safe[e].direction.get_orthogonal();
                    let side = self.get_safe_moves(&sideways, navi);
                    match pick_least_threat(&side, false) {
                        Some(i) => MoveDecision::decide(self, &side[i], navi),
                        None => MoveDecision::Final(Direction::Still),
                    }
                },
                None => MoveDecision::Final(Direction::Still),
            },
        }
    }

    /// The eligible step in the given directions that is worth most.
    pub fn get_best_move(&self, directions: &Vec<Direction>, map: &GameMap, navi: &Navi) -> (r:
        Option<SafeMove>)
        requires
            map.wf(),
            navi.wf(),
            self.position.within_reach(2),
        ensures
            ({
                let safe = safe_moves(navi@, self.position, directions@);
                match best_move(*map, self.position, safe) {
                    Some(i) => 0 <= i < safe.len() && r == Some(safe[i]),
                    None => r is None,
                }
            }),
    {
        let safe = self.get_safe_moves(directions, navi);
        let mut best: Option<usize> = None;
        let mut best_halite: u128 = 0;
        let mut i: usize = 0;
        proof {
            assert(safe@.take(0) =~= Seq::<SafeMove>::empty());
        }
        while i < safe.len()
            invariant
                0 <= i <= safe.len(),
                map.wf(),
                self.position.within_reach(2),
                match best {
                    Some(b) => {
                        &&& b < i
                        &&& best_move(*map, self.position, safe@.take(i as int)) == Some(b as int)
                        &&& best_halite == safe@[b as int].worth(*map, self.position)
                    },
                    None => best_move(*map, self.position, safe@.take(i as int)) is None,
                },
            decreases safe.len() - i,
        {
            proof {
                assert(safe@.take(i + 1).drop_last() =~= safe@.take(i as int));
            }
            let mv = safe[i];
            let position = self.position.directional_offset(mv.direction);
            let staying = mv.direction == Direction::Still;
            let mut halite: u128 = map.at_position(&position) as u128;
            if staying {
                halite = halite * 3;
            }
            let hostile = match mv.blocking_ship {
                Some(Occupation::Enemy(_)) => true,
                _ => false,
            };
            if !hostile && !(staying && halite == 0) {
                match best {
                    Some(b) => {
                        if best_halite < halite || (best_halite == halite && safe[b].direction
                            == Direction::Still) {
                            best_halite = halite;
                            best = Some(i);
                        }
                    },
                    None => {
                        best_halite = halite;
                        best = Some(i);
                    },
                }
            }
            i += 1;
        }
        proof {
            assert(safe@.take(safe.len() as int) =~= safe@);
        }
        match best {
            Some(b) => Some(safe[b]),
            None => None,
        }
    }

    /// Proposes a move for a ship that collects halite on its way to `goal`.
    pub fn collect_halite(&self, player: &Player, map: &GameMap, navi: &Navi, goal: &Position) -> (r:
        MoveDecision)
        requires
            map.wf(),
            navi.wf(),
            self.position.within_reach(2),
        ensures
            r == self.collect_decision(*player, *map, navi@, *goal),
            r.orderly(navi@, self.position),
            r.careful(navi@, self.position),
    {
        proof {
            lemma_collect_decision(*self, *player, *map, navi@, *goal);
        }
        let under = map.at_entity(self);
        let threshold: usize = under / 10 + if under % 10 >= 5 {
            1usize
        } else {
            0usize
        };
        if self.halite < threshold {
            return MoveDecision::Final(Direction::Still);
        }
        let mut goal_moves = navi.get_unsafe_moves(&self.position, goal);
        if navi.normalize(&self.position) != navi.normalize(&player.shipyard) {
            goal_moves.push(Direction::Still);
        }
        match self.get_best_move(&goal_moves, map, navi) {
            Some(mv) => MoveDecision::decide(self, &mv, navi),
            None => {
                let other_moves = directions_without(&Direction::get_all(), &goal_moves);
                match self.get_best_move(&other_moves, map, navi) {
                    Some(mv) => MoveDecision::decide(self, &mv, navi),
                    None => MoveDecision::Final(Direction::Still),
                }
            },
        }
    }
}

/// What the engine proposes to a collecting ship is orderly and careful.
pub proof fn lemma_collect_decision(
    ship: Ship,
    player: Player,
    map: GameMap,
    navi: NaviModel,
    goal: Position,
)
    ensures
        ship.collect_decision(player, map, navi, goal).orderly(navi, ship.position),
        ship.collect_decision(player, map, navi, goal).careful(navi, ship.position),
{
    let from = ship.position;
    if ship.halite >= tenth(map.richness(from) as int) {
        let first = ship.goal_moves(player, navi, goal);
        let safe = safe_moves(navi, from, first);
        lemma_safe_moves(navi, from, first);
        lemma_best_move(map, from, safe);
        match best_move(map, from, safe) {
            Some(i) => {
                lemma_decided_of_sound(navi, from, ship.id, safe[i]);
            },
            None => {
                let rest = untried(Direction::all(), first);
                let other = safe_moves(navi, from, rest);
                lemma_safe_moves(navi, from, rest);
                lemma_best_move(map, from, other);
                match best_move(map, from, other) {
                    Some(i) => {
                        lemma_decided_of_sound(navi, from, ship.id, other[i]);
                    },
                    None => {},
                }
            },
        }
    }
}

/// What the engine proposes to a delivering ship is orderly, and careful
/// too unless the match is about to end.
pub proof fn lemma_drop_decision(
    ship: Ship,
    player: Player,
    map: GameMap,
    navi: NaviModel,
    dropoffs: Seq<Position>,
    finishing: bool,
)
    ensures
        ship.drop_decision(player, map, navi, dropoffs, finishing).orderly(navi, ship.position),
        !finishing ==> ship.drop_decision(player, map, navi, dropoffs, finishing).careful(
            navi,
            ship.position,
        ),
{
    let from = ship.position;
    let target = nearest_dropoff(map, from, player.shipyard, dropoffs);
    let moves = navi.unsafe_moves(from, target);
    let safe = safe_moves(navi, from, moves);
    lemma_safe_moves(navi, from, moves);
    lemma_least_threat(safe, false);
    lemma_least_threat(safe, true);
    match least_threat(safe, false) {
        Some(i) => {
            lemma_decided_of_sound(navi, from, ship.id, safe[i]);
        },
        None => match least_threat(safe, true) {
            Some(e) => {
                let sideways = safe[e].direction.orthogonal();
                let side = safe_moves(navi, from, sideways);
                lemma_safe_moves(navi, from, sideways);
                lemma_least_threat(side, false);
                match least_threat(side, false) {
                    Some(i) => {
                        lemma_decided_of_sound(navi, from, ship.id, side[i]);
                    },
                    None => {},
                }
            },
            None => {},
        },
    }
}

/// The directions of `all` that are not among `tried`, in the order of
/// `all`.
pub fn directions_without(all: &Vec<Direction>, tried: &Vec<Direction>) -> (r: Vec<Direction>)
    ensures
        r@ == untried(all@, tried@),
{
    let mut r: Vec<Direction> = Vec::new();
    let mut i: usize = 0;
    proof {
        assert(all@.take(0) =~= Seq::<Direction>::empty());
    }
    while i < all.len()
        invariant
            0 <= i <= all.len(),
            r@ == untried(all@.take(i as int), tried@),
        decreases all.len() - i,
    {
        proof {
            assert(all@.take(i + 1).drop_last() =~= all@.take(i as int));
        }
        let d = all[i];
        let mut found = false;
        let mut j: usize = 0;
        while j < tried.len()
            invariant
                0 <= j <= tried.len(),
                found == exists|k: int| 0 <= k < j && tried@[k] == d,
            decreases tried.len() - j,
        {
            if tried[j] == d {
                found = true;
            }
            j += 1;
        }
        assert(found == tried@.contains(d));
        if !found {
            r.push(d);
        }
        i += 1;
    }
    proof {
        assert(all@.take(all.len() as int) =~= all@);
    }
    r
}

} // verus!
