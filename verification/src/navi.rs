//! The occupancy tracker: which cell is held by which ship, and which ship
//! waits for which other ship to move.
//!
//! The tracker is rebuilt from the turn's snapshot before any move is
//! decided. A ship of the fleet starts the turn as the provisional holder
//! of its cell; committing its move makes it the final holder of the
//! destination. The waiting table gives each blocking ship one slot: a
//! second ship that starts to wait for the same blocker replaces the first.
use crate::direction::Direction;
use crate::game_map::{ring_distance, wrap_axis};
use crate::ids::{PlayerId, ShipId};
use crate::position::Position;
use crate::ship::Ship;
use std::collections::HashMap;
use vstd::prelude::*;

verus! {

broadcast use vstd::std_specs::hash::group_hash_axioms;

/// Who holds a cell.
#[derive(Copy, Clone, Debug, PartialEq, Eq, Structural)]
pub enum Occupation {
    /// A ship of the fleet; the flag says whether its move for this turn has
    /// been committed (`true`) or it merely sits there (`false`).
    Me(ShipId, bool),
    /// A ship of another player. It is taken to stay where it is.
    Enemy(ShipId),
}

/// `v` wrapped into `0 <= r < m`.
pub open spec fn wrap(v: int, m: int) -> int {
    v % m
}

/// The index of the last entry of `table` whose blocker is `blocker`.
pub open spec fn slot_of(table: Seq<(ShipId, ShipId)>, blocker: ShipId) -> Option<int>
    decreases table.len(),
{
    if table.len() == 0 {
        None
    } else if table.last().0 == blocker {
        Some(table.len() - 1)
    } else {
        slot_of(table.drop_last(), blocker)
    }
}

/// What `slot_of` finds: an entry of the blocker after which no other entry
/// of it follows, or the fact that the blocker has no entry.
pub proof fn lemma_slot_of(table: Seq<(ShipId, ShipId)>, blocker: ShipId)
    ensures
        match slot_of(table, blocker) {
            Some(i) => {
                &&& 0 <= i < table.len()
                &&& table[i].0 == blocker
                &&& forall|j: int| i < j < table.len() ==> (#[trigger] table[j]).0 != blocker
            },
            None => forall|j: int| 0 <= j < table.len() ==> (#[trigger] table[j]).0 != blocker,
        },
    decreases table.len(),
{
    if table.len() > 0 && table.last().0 != blocker {
        let front = table.drop_last();
        lemma_slot_of(front, blocker);
        assert(forall|j: int| 0 <= j < front.len() ==> front[j] == table[j]);
        match slot_of(front, blocker) {
            Some(i) => {
                assert forall|j: int| i < j < table.len() implies (#[trigger] table[j]).0
                    != blocker by {
                    if j < front.len() {
                        assert(front[j].0 != blocker);
                    }
                }
            },
            None => {
                assert forall|j: int| 0 <= j < table.len() implies (#[trigger] table[j]).0
                    != blocker by {
                    if j < front.len() {
                        assert(front[j].0 != blocker);
                    }
                }
            },
        }
    }
}

/// The step to take along one axis of a ring of `size` cells to get from
/// coordinate `from` to coordinate `to` the shorter way: none if they are
/// the same, else `down` towards smaller or `up` towards greater
/// coordinates. Where the direct way and the way round are equally long the
/// direct way is taken.
pub open spec fn axis_step(from: int, to: int, size: int, down: Direction, up: Direction) -> Seq<
    Direction,
> {
    if from == to {
        Seq::empty()
    } else if from < to {
        if size - (to - from) < to - from {
            seq![down]
        } else {
            seq![up]
        }
    } else {
        if size - (from - to) < from - to {
            seq![up]
        } else {
            seq![down]
        }
    }
}

/// Whether no blocker has more than one entry in the waiting table.
pub open spec fn single_slot(table: Seq<(ShipId, ShipId)>) -> bool {
    forall|i: int, j: int|
        0 <= i < j < table.len() ==> (#[trigger] table[i]).0 != (#[trigger] table[j]).0
}

/// The tracker as a mathematical value.
pub struct NaviModel {
    pub width: int,
    pub height: int,
    /// The holder of each held cell, by wrapped position.
    pub cells: Map<Position, Occupation>,
    /// The waiting table: pairs of blocker and waiter, oldest first.
    pub waiting: Seq<(ShipId, ShipId)>,
}

impl NaviModel {
    pub open spec fn wf(self) -> bool {
        &&& 0 < self.width <= i32::MAX
        &&& 0 < self.height <= i32::MAX
        &&& forall|p: Position| #[trigger] self.cells.contains_key(p) ==> self.in_grid(p)
        &&& single_slot(self.waiting)
    }

    pub open spec fn in_grid(self, p: Position) -> bool {
        0 <= p.x < self.width && 0 <= p.y < self.height
    }

    pub open spec fn normalize(self, p: Position) -> Position {
        Position {
            x: wrap(p.x as int, self.width) as i32,
            y: wrap(p.y as int, self.height) as i32,
        }
    }

    /// The steps that bring a ship from `source` nearer to `destination`,
    /// whoever holds the cells on the way: at most one along `x`, then at
    /// most one along `y`.
    pub open spec fn unsafe_moves(self, source: Position, destination: Position) -> Seq<
        Direction,
    > {
        let s = self.normalize(source);
        let d = self.normalize(destination);
        axis_step(s.x as int, d.x as int, self.width, Direction::West, Direction::East)
            + axis_step(s.y as int, d.y as int, self.height, Direction::North, Direction::South)
    }

    /// The number of steps from `a` to `b` on the wrap-around grid.
    pub open spec fn distance(self, a: Position, b: Position) -> int {
        ring_distance(self.normalize(a).x as int, self.normalize(b).x as int, self.width)
            + ring_distance(self.normalize(a).y as int, self.normalize(b).y as int, self.height)
    }

    pub open spec fn occupation_at(self, p: Position) -> Option<Occupation> {
        let q = self.normalize(p);
        if self.cells.contains_key(q) {
            Some(self.cells[q])
        } else {
            None
        }
    }

    pub open spec fn is_empty(self, p: Position) -> bool {
        self.occupation_at(p) is None
    }

    pub open spec fn is_hostile(self, p: Position) -> bool {
        self.occupation_at(p) matches Some(Occupation::Enemy(_))
    }

    pub open spec fn friend_at(self, p: Position) -> Option<ShipId> {
        match self.occupation_at(p) {
            Some(Occupation::Me(id, _)) => Some(id),
            _ => None,
        }
    }

    pub open spec fn has_waiter(self, blocker: ShipId) -> bool {
        slot_of(self.waiting, blocker) is Some
    }

    pub open spec fn waiter_of(self, blocker: ShipId) -> Option<ShipId> {
        match slot_of(self.waiting, blocker) {
            Some(i) => Some(self.waiting[i].1),
            None => None,
        }
    }

    /// A cell is unsafe only if a ship of the fleet has committed to it, or
    /// sits there with another ship already waiting for it.
    pub open spec fn is_safe(self, p: Position) -> bool {
        match self.occupation_at(p) {
            Some(Occupation::Me(id, done)) => !done && !self.has_waiter(id),
            Some(Occupation::Enemy(_)) => true,
            None => true,
        }
    }

    /// The ship of the fleet that has committed its move to the cell of `p`.
    pub open spec fn committed(self, p: Position) -> Option<ShipId> {
        match self.occupation_at(p) {
            Some(Occupation::Me(id, true)) => Some(id),
            _ => None,
        }
    }

    /// Whether the cell of `p` is attributed to the ship `id`.
    pub open spec fn holds(self, p: Position, id: ShipId) -> bool {
        self.occupation_at(p) matches Some(Occupation::Me(h, _)) && h == id
    }

    /// The tracker with one more holder; a cell that was held changes hands.
    pub open spec fn mark(self, p: Position, o: Occupation) -> NaviModel {
        NaviModel { cells: self.cells.insert(self.normalize(p), o), ..self }
    }

    pub open spec fn unmark(self, p: Position) -> NaviModel {
        NaviModel { cells: self.cells.remove(self.normalize(p)), ..self }
    }

    /// The tracker after the ship `id`, which was at `from`, has committed to
    /// `to`.
    pub open spec fn resolve(self, id: ShipId, from: Position, to: Position) -> NaviModel {
        let left = if self.holds(from, id) {
            self.unmark(from)
        } else {
            self
        };
        left.mark(to, Occupation::Me(id, true))
    }

    pub open spec fn record_waiting(self, blocker: ShipId, waiter: ShipId) -> NaviModel {
        match slot_of(self.waiting, blocker) {
            Some(i) => NaviModel { waiting: self.waiting.update(i, (blocker, waiter)), ..self },
            None => NaviModel { waiting: self.waiting.push((blocker, waiter)), ..self },
        }
    }

    pub open spec fn take_waiter(self, blocker: ShipId) -> NaviModel {
        match slot_of(self.waiting, blocker) {
            Some(i) => NaviModel { waiting: self.waiting.remove(i), ..self },
            None => self,
        }
    }

    /// The tracker with nobody waiting.
    pub open spec fn idle(self) -> NaviModel {
        NaviModel { waiting: Seq::empty(), ..self }
    }

    pub open spec fn cleared(self) -> NaviModel {
        NaviModel { cells: Map::empty(), waiting: Seq::empty(), ..self }
    }

    /// The tracker at the start of a turn in which `ships` are on the grid
    /// and `my_id` owns the fleet: each ship holds its cell, a later ship
    /// taking the cell of an earlier one.
    pub open spec fn frame(self, ships: Seq<Ship>, my_id: PlayerId) -> NaviModel
        decreases ships.len(),
    {
        if ships.len() == 0 {
            self.cleared()
        } else {
            let s = ships.last();
            self.frame(ships.drop_last(), my_id).mark(s.position, occupation_of(s, my_id))
        }
    }

    /// The number of hostile ships on the four neighbours of `p`.
    pub open spec fn threats(self, p: Position) -> int {
        self.threat(p.offset(Direction::North)) + self.threat(p.offset(Direction::South))
            + self.threat(p.offset(Direction::East)) + self.threat(p.offset(Direction::West))
    }

    pub open spec fn threat(self, p: Position) -> int {
        if self.is_hostile(p) {
            1
        } else {
            0
        }
    }
}

/// The index of the last of `ships` that is on the cell of `p`.
pub open spec fn last_at(navi: NaviModel, ships: Seq<Ship>, p: Position) -> Option<int>
    decreases ships.len(),
{
    if ships.len() == 0 {
        None
    } else if navi.normalize(ships.last().position) == navi.normalize(p) {
        Some(ships.len() - 1)
    } else {
        last_at(navi, ships.drop_last(), p)
    }
}

/// At the start of a turn nobody waits, and each cell is held by the last
/// of the ships that is on it, as a ship of the fleet that has not decided
/// yet or as a hostile ship; a cell with no ship on it is free.
pub proof fn lemma_frame(navi: NaviModel, ships: Seq<Ship>, my_id: PlayerId, p: Position)
    requires
        navi.wf(),
    ensures
        navi.frame(ships, my_id).wf(),
        navi.frame(ships, my_id).width == navi.width,
        navi.frame(ships, my_id).height == navi.height,
        navi.frame(ships, my_id).waiting.len() == 0,
        navi.frame(ships, my_id).occupation_at(p) == match last_at(navi, ships, p) {
            Some(i) => Some(occupation_of(ships[i], my_id)),
            None => None,
        },
        last_at(navi, ships, p) matches Some(i) ==> 0 <= i < ships.len(),
    decreases ships.len(),
{
    if ships.len() > 0 {
        let front = ships.drop_last();
        lemma_frame(navi, front, my_id, p);
        lemma_normalize_idempotent(navi, ships.last().position);
        assert(forall|j: int| 0 <= j < front.len() ==> front[j] == ships[j]);
    }
}

/// What `last_at` finds: a ship on the cell after which no other ship on
/// the cell follows, or the fact that no ship is on the cell.
pub proof fn lemma_last_at(navi: NaviModel, ships: Seq<Ship>, p: Position)
    ensures
        match last_at(navi, ships, p) {
            Some(i) => {
                &&& 0 <= i < ships.len()
                &&& navi.normalize(ships[i].position) == navi.normalize(p)
                &&& forall|j: int|
                    i < j < ships.len() ==> navi.normalize((#[trigger] ships[j]).position)
                        != navi.normalize(p)
            },
            None => forall|j: int|
                0 <= j < ships.len() ==> navi.normalize((#[trigger] ships[j]).position)
                    != navi.normalize(p),
        },
    decreases ships.len(),
{
    if ships.len() > 0 && navi.normalize(ships.last().position) != navi.normalize(p) {
        let front = ships.drop_last();
        lemma_last_at(navi, front, p);
        assert(forall|j: int| 0 <= j < front.len() ==> front[j] == ships[j]);
    }
}

/// At the start of a turn a ship of the fleet that shares its cell with no
/// other ship is entered as the undecided holder of its cell.
pub proof fn lemma_frame_seats(navi: NaviModel, ships: Seq<Ship>, my_id: PlayerId, i: int)
    requires
        navi.wf(),
        0 <= i < ships.len(),
        ships[i].owner == my_id,
        forall|j: int|
            0 <= j < ships.len() && j != i ==> navi.normalize((#[trigger] ships[j]).position)
                != navi.normalize(ships[i].position),
    ensures
        navi.frame(ships, my_id).occupation_at(ships[i].position) == Some(
            Occupation::Me(ships[i].id, false),
        ),
{
    lemma_frame(navi, ships, my_id, ships[i].position);
    lemma_last_at(navi, ships, ships[i].position);
}

/// How a ship is entered at the start of a turn.
pub open spec fn occupation_of(s: Ship, my_id: PlayerId) -> Occupation {
    if s.owner == my_id {
        Occupation::Me(s.id, false)
    } else {
        Occupation::Enemy(s.id)
    }
}

/// The key under which a cell of the grid is stored.
pub open spec fn cell_key(p: Position) -> u64 {
    (p.x as int * 0x1_0000_0000 + p.y as int) as u64
}

/// The occupancy tracker of one match. It lives through the match and is
/// rebuilt at the start of every turn.
pub struct Navi {
    width: usize,
    height: usize,
    occupied: HashMap<u64, Occupation>,
    waiting: Vec<(ShipId, ShipId)>,
}

impl View for Navi {
    type V = NaviModel;

    closed spec fn view(&self) -> NaviModel {
        NaviModel {
            width: self.width as int,
            height: self.height as int,
            cells: Map::new(
                |p: Position|
                    0 <= p.x < self.width && 0 <= p.y < self.height
                        && self.occupied@.contains_key(cell_key(p)),
                |p: Position| self.occupied@[cell_key(p)],
            ),
            waiting: self.waiting@,
        }
    }
}

impl Navi {
    pub open spec fn wf(&self) -> bool {
        self@.wf()
    }

    /// An empty tracker for a grid of `width` by `height` cells.
    pub fn new(width: usize, height: usize) -> (r: Navi)
        requires
            0 < width <= i32::MAX,
            0 < height <= i32::MAX,
        ensures
            r.wf(),
            r@.width == width,
            r@.height == height,
            r@.cells == Map::<Position, Occupation>::empty(),
            r@.waiting == Seq::<(ShipId, ShipId)>::empty(),
    {
        let r = Navi { width, height, occupied: HashMap::new(), waiting: Vec::new() };
        assert(r@.cells =~= Map::<Position, Occupation>::empty());
        r
    }

    pub fn width(&self) -> (r: usize)
        ensures
            r == self@.width,
    {
        self.width
    }

    pub fn height(&self) -> (r: usize)
        ensures
            r == self@.height,
    {
        self.height
    }

    /// Forgets every holder and every waiter.
    pub fn clear(&mut self)
        ensures
            old(self).wf() ==> final(self).wf(),
            final(self)@ == old(self)@.cleared(),
    {
        self.occupied.clear();
        self.waiting.clear();
        assert(self@.cells =~= Map::<Position, Occupation>::empty());
    }

    /// Wraps a position into the grid.
    pub fn normalize(&self, position: &Position) -> (r: Position)
        requires
            self.wf(),
        ensures
            r == self@.normalize(*position),
            self@.in_grid(r),
    {
        let x = wrap_axis(position.x, self.width);
        let y = wrap_axis(position.y, self.height);
        Position { x, y }
    }

    pub fn get_unsafe_moves(&self, source: &Position, destination: &Position) -> (r: Vec<
        Direction,
    >)
        requires
            self.wf(),
        ensures
            r@ == self@.unsafe_moves(*source, *destination),
    {
        let s = self.normalize(source);
        let d = self.normalize(destination);
        let mut possible_moves: Vec<Direction> = Vec::new();
        if s.x < d.x {
            let direct: usize = (d.x - s.x) as usize;
            possible_moves.push(
                if self.width - direct < direct {
                    Direction::West
                } else {
                    Direction::East
                },
            );
        } else if s.x > d.x {
            let direct: usize = (s.x - d.x) as usize;
            possible_moves.push(
                if self.width - direct < direct {
                    Direction::East
                } else {
                    Direction::West
                },
            );
        }
        if s.y < d.y {
            let direct: usize = (d.y - s.y) as usize;
            possible_moves.push(
                if self.height - direct < direct {
                    Direction::North
                } else {
                    Direction::South
                },
            );
        } else if s.y > d.y {
            let direct: usize = (s.y - d.y) as usize;
            possible_moves.push(
                if self.height - direct < direct {
                    Direction::South
                } else {
                    Direction::North
                },
            );
        }
        assert(possible_moves@ =~= self@.unsafe_moves(*source, *destination));
        possible_moves
    }

    fn key(&self, position: &Position) -> (r: (Position, u64))
        requires
            self.wf(),
        ensures
            r.0 == self@.normalize(*position),
            r.1 == cell_key(r.0),
            self@.in_grid(r.0),
    {
        let p = self.normalize(position);
        let k: u64 = (p.x as u64) * 0x1_0000_0000 + (p.y as u64);
        (p, k)
    }

    pub fn occupation_at(&self, position: &Position) -> (r: Option<Occupation>)
        requires
            self.wf(),
        ensures
            r == self@.occupation_at(*position),
    {
        let (p, k) = self.key(position);
        match self.occupied.get(&k) {
            Some(o) => Some(*o),
            None => None,
        }
    }

    pub fn is_empty(&self, position: &Position) -> (r: bool)
        requires
            self.wf(),
        ensures
            r == self@.is_empty(*position),
    {
        self.occupation_at(position).is_none()
    }

    pub fn is_hostile(&self, position: &Position) -> (r: bool)
        requires
            self.wf(),
        ensures
            r == self@.is_hostile(*position),
    {
        match self.occupation_at(position) {
            Some(Occupation::Enemy(_)) => true,
            _ => false,
        }
    }

    pub fn friend_at(&self, position: &Position) -> (r: Option<ShipId>)
        requires
            self.wf(),
        ensures
            r == self@.friend_at(*position),
    {
        match self.occupation_at(position) {
            Some(Occupation::Me(id, _)) => Some(id),
            _ => None,
        }
    }

    pub fn is_safe(&self, position: &Position) -> (r: bool)
        requires
            self.wf(),
        ensures
            r == self@.is_safe(*position),
    {
        match self.occupation_at(position) {
            Some(Occupation::Me(id, done)) => !done && !self.has_ship_waiting_for(&id),
            Some(Occupation::Enemy(_)) => true,
            None => true,
        }
    }

    fn mark_unsafe(&mut self, position: &Position, occupation: Occupation)
        requires
            old(self).wf(),
        ensures
            final(self).wf(),
            final(self)@ == old(self)@.mark(*position, occupation),
    {
        let (p, k) = self.key(position);
        self.occupied.insert(k, occupation);
        assert(self@.cells =~= old(self)@.cells.insert(p, occupation));
    }

    fn mark_safe(&mut self, position: &Position)
        requires
            old(self).wf(),
        ensures
            final(self).wf(),
            final(self)@ == old(self)@.unmark(*position),
    {
        let (p, k) = self.key(position);
        self.occupied.remove(&k);
        assert(self@.cells =~= old(self)@.cells.remove(p));
    }

    /// Commits the ship to `new_position`: the cell it came from is given up
    /// if it is still attributed to the ship, and the destination is entered
    /// as finally held by it.
    pub fn resolve(&mut self, ship: &Ship, new_position: &Position)
        requires
            old(self).wf(),
        ensures
            final(self).wf(),
            final(self)@ == old(self)@.resolve(ship.id, ship.position, *new_position),
    {
        let held = match self.occupation_at(&ship.position) {
            Some(Occupation::Me(id, _)) => id == ship.id,
            _ => false,
        };
        if held {
            self.mark_safe(&ship.position);
        }
        self.mark_unsafe(new_position, Occupation::Me(ship.id, true));
    }

    /// Rebuilds the tracker from the ships on the grid.
    pub fn update_frame(&mut self, ships: &Vec<Ship>, my_id: PlayerId)
        requires
            old(self).wf(),
        ensures
            final(self).wf(),
            final(self)@ == old(self)@.frame(ships@, my_id),
            final(self)@.waiting == Seq::<(ShipId, ShipId)>::empty(),
            final(self)@.width == old(self)@.width,
            final(self)@.height == old(self)@.height,
    {
        self.clear();
        let mut i: usize = 0;
        while i < ships.len()
            invariant
                0 <= i <= ships.len(),
                self.wf(),
                self@ == old(self)@.frame(ships@.take(i as int), my_id),
                self@.waiting == Seq::<(ShipId, ShipId)>::empty(),
                self@.width == old(self)@.width,
                self@.height == old(self)@.height,
            decreases ships.len() - i,
        {
            let ship = &ships[i];
            let occupation = if ship.owner == my_id {
                Occupation::Me(ship.id, false)
            } else {
                Occupation::Enemy(ship.id)
            };
            self.mark_unsafe(&ship.position, occupation);
            proof {
                assert(ships@.take(i + 1).drop_last() =~= ships@.take(i as int));
            }
            i += 1;
        }
        assert(ships@.take(ships.len() as int) =~= ships@);
    }

    fn find_slot(&self, blocker: &ShipId) -> (r: Option<usize>)
        ensures
            match r {
                Some(i) => slot_of(self@.waiting, *blocker) == Some(i as int) && i
                    < self@.waiting.len(),
                None => slot_of(self@.waiting, *blocker) is None,
            },
    {
        let mut i: usize = self.waiting.len();
        proof {
            assert(self.waiting@.take(i as int) =~= self.waiting@);
        }
        while i > 0
            invariant
                0 <= i <= self.waiting.len(),
                slot_of(self.waiting@, *blocker) == slot_of(self.waiting@.take(i as int), *blocker),
            decreases i,
        {
            i -= 1;
            proof {
                assert(self.waiting@.take(i + 1).drop_last() =~= self.waiting@.take(i as int));
            }
            if self.waiting[i].0 == *blocker {
                return Some(i);
            }
        }
        None
    }

    /// Enters `waiting_ship` as the ship that waits for `blocking_ship`; a
    /// ship that waited for the same blocker before is forgotten.
    pub fn record_waiting(&mut self, blocking_ship: ShipId, waiting_ship: ShipId)
        requires
            old(self).wf(),
        ensures
            final(self).wf(),
            final(self)@ == old(self)@.record_waiting(blocking_ship, waiting_ship),
    {
        proof {
            lemma_record_waiting(self@, blocking_ship, waiting_ship);
        }
        match self.find_slot(&blocking_ship) {
            Some(i) => {
                self.waiting.set(i, (blocking_ship, waiting_ship));
            },
            None => {
                self.waiting.push((blocking_ship, waiting_ship));
            },
        }
    }

    pub fn has_ship_waiting_for(&self, blocking_ship: &ShipId) -> (r: bool)
        ensures
            r == self@.has_waiter(*blocking_ship),
    {
        self.find_slot(blocking_ship).is_some()
    }

    pub fn waiting_ship(&self, blocking_ship: &ShipId) -> (r: Option<ShipId>)
        ensures
            r == self@.waiter_of(*blocking_ship),
    {
        match self.find_slot(blocking_ship) {
            Some(i) => Some(self.waiting[i].1),
            None => None,
        }
    }

    /// Removes and returns the ship that waits for `blocking_ship`.
    pub fn take_waiter(&mut self, blocking_ship: &ShipId) -> (r: Option<ShipId>)
        requires
            old(self).wf(),
        ensures
            final(self).wf(),
            r == old(self)@.waiter_of(*blocking_ship),
            final(self)@ == old(self)@.take_waiter(*blocking_ship),
    {
        proof {
            lemma_take_waiter(self@, *blocking_ship);
        }
        match self.find_slot(blocking_ship) {
            Some(i) => {
                let pair = self.waiting.remove(i);
                Some(pair.1)
            },
            None => None,
        }
    }

    /// Empties the waiting table and returns the ships that still waited,
    /// oldest entry first.
    pub fn drain_waiting(&mut self) -> (r: Vec<ShipId>)
        ensures
            old(self).wf() ==> final(self).wf(),
            r@ == waiters_of(old(self)@.waiting),
            final(self)@ == old(self)@.idle(),
    {
        let mut r: Vec<ShipId> = Vec::new();
        let mut i: usize = 0;
        while i < self.waiting.len()
            invariant
                0 <= i <= self.waiting.len(),
                self == old(self),
                r@ == waiters_of(self.waiting@.take(i as int)),
            decreases self.waiting.len() - i,
        {
            r.push(self.waiting[i].1);
            assert(r@ =~= waiters_of(self.waiting@.take(i + 1)));
            i += 1;
        }
        assert(self.waiting@.take(self.waiting.len() as int) =~= self.waiting@);
        self.waiting.clear();
        r
    }
}

/// Wrapping a position puts it into the grid, and wrapping it again changes
/// nothing; a position in the grid is its own wrapping.
pub proof fn lemma_normalize_idempotent(navi: NaviModel, p: Position)
    requires
        navi.wf(),
    ensures
        navi.in_grid(navi.normalize(p)),
        navi.normalize(navi.normalize(p)) == navi.normalize(p),
        navi.in_grid(p) ==> navi.normalize(p) == p,
{
    vstd::arithmetic::div_mod::lemma_mod_bound(p.x as int, navi.width);
    vstd::arithmetic::div_mod::lemma_mod_bound(p.y as int, navi.height);
    vstd::arithmetic::div_mod::lemma_mod_twice(p.x as int, navi.width);
    vstd::arithmetic::div_mod::lemma_mod_twice(p.y as int, navi.height);
    if navi.in_grid(p) {
        vstd::arithmetic::div_mod::lemma_small_mod(p.x as nat, navi.width as nat);
        vstd::arithmetic::div_mod::lemma_small_mod(p.y as nat, navi.height as nat);
    }
}

/// One step along a ring moves the wrapped coordinate by one, round the
/// ends.
pub proof fn lemma_wrap_step(v: int, m: int)
    requires
        m > 0,
    ensures
        wrap(v + 1, m) == if wrap(v, m) + 1 == m {
            0
        } else {
            wrap(v, m) + 1
        },
        wrap(v - 1, m) == if wrap(v, m) == 0 {
            m - 1
        } else {
            wrap(v, m) - 1
        },
{
    let q = v / m;
    let r = v % m;
    vstd::arithmetic::div_mod::lemma_fundamental_div_mod(v, m);
    vstd::arithmetic::div_mod::lemma_mod_bound(v, m);
    assert((q + 1) * m == q * m + m) by (nonlinear_arith);
    assert((q - 1) * m == q * m - m) by (nonlinear_arith);
    assert(m * q == q * m) by (nonlinear_arith);
    if r + 1 == m {
        vstd::arithmetic::div_mod::lemma_fundamental_div_mod_converse(v + 1, m, q + 1, 0);
    } else {
        vstd::arithmetic::div_mod::lemma_fundamental_div_mod_converse(v + 1, m, q, r + 1);
    }
    if r == 0 {
        vstd::arithmetic::div_mod::lemma_fundamental_div_mod_converse(v - 1, m, q - 1, m - 1);
    } else {
        vstd::arithmetic::div_mod::lemma_fundamental_div_mod_converse(v - 1, m, q, r - 1);
    }
}

/// The steps towards a destination are at most two, none of them is a
/// stay, there is none exactly when the ship is on the destination's cell,
/// and each of them brings the ship one step nearer.
pub proof fn lemma_unsafe_moves_approach(navi: NaviModel, source: Position, destination: Position)
    requires
        navi.wf(),
        source.within_reach(1),
    ensures
        navi.unsafe_moves(source, destination).len() <= 2,
        navi.unsafe_moves(source, destination).len() == 0 <==> navi.normalize(source)
            == navi.normalize(destination),
        navi.unsafe_moves(source, destination).len() == 0 <==> navi.distance(source, destination)
            == 0,
        forall|i: int|
            0 <= i < navi.unsafe_moves(source, destination).len() ==> {
                let d = #[trigger] navi.unsafe_moves(source, destination)[i];
                &&& d != Direction::Still
                &&& navi.distance(source.offset(d), destination) == navi.distance(
                    source,
                    destination,
                ) - 1
            },
{
    lemma_normalize_idempotent(navi, source);
    lemma_normalize_idempotent(navi, destination);
    lemma_wrap_step(source.x as int, navi.width);
    lemma_wrap_step(source.y as int, navi.height);
    let moves = navi.unsafe_moves(source, destination);
    assert forall|i: int| 0 <= i < moves.len() implies {
        let d = #[trigger] moves[i];
        &&& d != Direction::Still
        &&& navi.distance(source.offset(d), destination) == navi.distance(source, destination)
            - 1
    } by {
        let d = moves[i];
        let s = navi.normalize(source);
        let t = navi.normalize(destination);
        let along_x = axis_step(
            s.x as int,
            t.x as int,
            navi.width,
            Direction::West,
            Direction::East,
        );
        let along_y = axis_step(
            s.y as int,
            t.y as int,
            navi.height,
            Direction::North,
            Direction::South,
        );
        if i < along_x.len() {
            assert(d == along_x[i]);
            assert(source.offset(d).y == source.y);
        } else {
            assert(d == along_y[i - along_x.len()]);
            assert(source.offset(d).x == source.x);
        }
    }
}

/// After a ship has committed to a cell the tracker reports the ship as the
/// final holder of that cell, and the cell it came from, if it was
/// attributed to the ship and is another cell, as free. Every other cell
/// and the waiting table are as before; in particular no cell that was
/// finally held becomes provisionally held.
pub proof fn lemma_resolve_round_trip(navi: NaviModel, id: ShipId, from: Position, to: Position)
    requires
        navi.wf(),
    ensures
        navi.resolve(id, from, to).wf(),
        navi.resolve(id, from, to).occupation_at(to) == Some(Occupation::Me(id, true)),
        navi.holds(from, id) && navi.normalize(from) != navi.normalize(to) ==> navi.resolve(
            id,
            from,
            to,
        ).occupation_at(from) is None,
        forall|p: Position|
            navi.normalize(p) != navi.normalize(to) && !(navi.holds(from, id) && navi.normalize(p)
                == navi.normalize(from)) ==> #[trigger] navi.resolve(id, from, to).occupation_at(p)
                == navi.occupation_at(p),
        navi.resolve(id, from, to).waiting == navi.waiting,
        forall|p: Position|
            (#[trigger] navi.resolve(id, from, to).occupation_at(p) matches Some(
                Occupation::Me(_, false),
            )) ==> navi.resolve(id, from, to).occupation_at(p) == navi.occupation_at(p),
{
    lemma_normalize_idempotent(navi, from);
    lemma_normalize_idempotent(navi, to);
}

/// A commit to a cell that no other ship has committed to takes no ship's
/// commitment away: whatever cell another ship had committed to, it still
/// has.
pub proof fn lemma_commitments_stay(navi: NaviModel, id: ShipId, from: Position, to: Position)
    requires
        navi.wf(),
        navi.committed(to) is None || navi.committed(to) == Some(id),
    ensures
        navi.resolve(id, from, to).committed(to) == Some(id),
        forall|p: Position|
            navi.committed(p) is Some && navi.committed(p) != Some(id) ==> #[trigger] navi.resolve(
                id,
                from,
                to,
            ).committed(p) == navi.committed(p),
{
    lemma_resolve_round_trip(navi, id, from, to);
}

/// In a table where no blocker has two entries, an entry of a blocker is
/// the one that `slot_of` finds.
pub proof fn lemma_slot_is_unique(table: Seq<(ShipId, ShipId)>, blocker: ShipId, i: int)
    requires
        single_slot(table),
        0 <= i < table.len(),
        table[i].0 == blocker,
    ensures
        slot_of(table, blocker) == Some(i),
{
    lemma_slot_of(table, blocker);
    match slot_of(table, blocker) {
        Some(j) => {
            if j < i {
                assert(table[j].0 != table[i].0);
            } else if i < j {
                assert(table[i].0 != table[j].0);
            }
        },
        None => {
            assert(table[i].0 != blocker);
        },
    }
}

/// Entering a waiter keeps the tracker well formed, and the waiter is then
/// the one that waits for the blocker; who waits for any other blocker is
/// unchanged.
pub proof fn lemma_record_waiting(navi: NaviModel, blocker: ShipId, waiter: ShipId)
    requires
        navi.wf(),
    ensures
        navi.record_waiting(blocker, waiter).wf(),
        navi.record_waiting(blocker, waiter).waiter_of(blocker) == Some(waiter),
        forall|other: ShipId|
            other != blocker ==> navi.record_waiting(blocker, waiter).waiter_of(other)
                == navi.waiter_of(other),
{
    let before = navi.waiting;
    let after = navi.record_waiting(blocker, waiter).waiting;
    lemma_slot_of(before, blocker);
    let at = match slot_of(before, blocker) {
        Some(i) => i,
        None => before.len() as int,
    };
    assert(after.len() > at && after[at] == (blocker, waiter));
    assert forall|k: int| 0 <= k < after.len() && k != at implies after[k] == before[k]
        && before[k].0 != blocker by {
        if slot_of(before, blocker) is Some {
            if k < at {
                assert(before[k].0 != before[at].0);
            } else {
                assert(before[at].0 != before[k].0);
            }
        }
    }
    assert forall|k: int, l: int| 0 <= k < l < after.len() implies (#[trigger] after[k]).0 != (
    #[trigger] after[l]).0 by {
        if k != at && l != at {
            assert(before[k].0 != before[l].0);
        }
    }
    lemma_slot_is_unique(after, blocker, at);
    assert forall|other: ShipId| other != blocker implies navi.record_waiting(
        blocker,
        waiter,
    ).waiter_of(other) == navi.waiter_of(other) by {
        lemma_slot_of(before, other);
        match slot_of(before, other) {
            Some(j) => {
                assert(j != at);
                assert(after[j] == before[j]);
                lemma_slot_is_unique(after, other, j);
            },
            None => {
                lemma_slot_of(after, other);
                if slot_of(after, other) is Some {
                    let j = slot_of(after, other).unwrap();
                    assert(j != at);
                    assert(before[j].0 != other);
                }
            },
        }
    }
}

/// Taking the waiter of a blocker keeps the tracker well formed and leaves
/// the blocker without a waiter; who waits for any other blocker is
/// unchanged.
pub proof fn lemma_take_waiter(navi: NaviModel, blocker: ShipId)
    requires
        navi.wf(),
    ensures
        navi.take_waiter(blocker).wf(),
        !navi.take_waiter(blocker).has_waiter(blocker),
        forall|other: ShipId|
            other != blocker ==> navi.take_waiter(blocker).waiter_of(other) == navi.waiter_of(
                other,
            ),
{
    let before = navi.waiting;
    let after = navi.take_waiter(blocker).waiting;
    lemma_slot_of(before, blocker);
    match slot_of(before, blocker) {
        Some(at) => {
            assert(after == before.remove(at));
            assert forall|k: int| 0 <= k < after.len() implies after[k] == before[if k < at {
                k
            } else {
                k + 1
            }] && (#[trigger] after[k]).0 != blocker by {
                if k < at {
                    assert(before[k].0 != before[at].0);
                } else {
                    assert(before[at].0 != before[k + 1].0);
                }
            }
            assert forall|k: int, l: int| 0 <= k < l < after.len() implies (#[trigger] after[k]).0
                != (#[trigger] after[l]).0 by {
                let k0 = if k < at {
                    k
                } else {
                    k + 1
                };
                let l0 = if l < at {
                    l
                } else {
                    l + 1
                };
                assert(before[k0].0 != before[l0].0);
            }
            lemma_slot_of(after, blocker);
            assert forall|other: ShipId| other != blocker implies navi.take_waiter(
                blocker,
            ).waiter_of(other) == navi.waiter_of(other) by {
                lemma_slot_of(before, other);
                match slot_of(before, other) {
                    Some(j) => {
                        let j1 = if j < at {
                            j
                        } else {
                            j - 1
                        };
                        assert(after[j1] == before[j]);
                        lemma_slot_is_unique(after, other, j1);
                    },
                    None => {
                        lemma_slot_of(after, other);
                        if slot_of(after, other) is Some {
                            let j = slot_of(after, other).unwrap();
                            let j0 = if j < at {
                                j
                            } else {
                                j + 1
                            };
                            assert(before[j0].0 != other);
                        }
                    },
                }
            }
        },
        None => {},
    }
}

/// The waiters of a waiting table, in the table's order.
pub open spec fn waiters_of(table: Seq<(ShipId, ShipId)>) -> Seq<ShipId> {
    Seq::new(table.len(), |i: int| table[i].1)
}

} // verus!
