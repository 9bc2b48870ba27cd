//! The grid of the match: its size and the halite that lies on each cell.
use crate::ids::PlayerId;
use crate::position::Position;
use crate::ship::Ship;
use vstd::prelude::*;

verus! {

/// The player whose fleet is scheduled.
#[derive(Copy, Clone, Debug)]
pub struct Player {
    pub id: PlayerId,
    /// Where the fleet delivers.
    pub shipyard: Position,
    /// The halite the player has banked.
    pub halite: usize,
}

/// The distance between two coordinates on a ring of `size` cells: the
/// shorter of the direct way and the way round.
pub open spec fn ring_distance(a: int, b: int, size: int) -> int {
    let direct = if a < b {
        b - a
    } else {
        a - b
    };
    if direct <= size - direct {
        direct
    } else {
        size - direct
    }
}

/// Whether `cells` holds `height` rows of `width` cells each, for a grid
/// whose dimensions fit a coordinate.
pub open spec fn grid_ok(width: usize, height: usize, cells: Seq<Vec<usize>>) -> bool {
    &&& 0 < width <= i32::MAX
    &&& 0 < height <= i32::MAX
    &&& cells.len() == height
    &&& forall|i: int| 0 <= i < cells.len() ==> (#[trigger] cells[i]).len() == width
}

/// The grid: its width, its height and the halite on each cell, by rows.
pub struct GameMap {
    width: usize,
    height: usize,
    cells: Vec<Vec<usize>>,
}

impl GameMap {
    pub closed spec fn spec_width(&self) -> int {
        self.width as int
    }

    pub closed spec fn spec_height(&self) -> int {
        self.height as int
    }

    /// The halite on the cell in row `y`, column `x`.
    pub closed spec fn cell(&self, x: int, y: int) -> usize {
        self.cells@[y]@[x]
    }

    pub closed spec fn wf(&self) -> bool {
        grid_ok(self.width, self.height, self.cells@)
    }

    pub open spec fn in_grid(&self, p: Position) -> bool {
        0 <= p.x < self.spec_width() && 0 <= p.y < self.spec_height()
    }

    pub open spec fn wrapped(&self, p: Position) -> Position {
        Position {
            x: (p.x as int % self.spec_width()) as i32,
            y: (p.y as int % self.spec_height()) as i32,
        }
    }

    /// The halite on the cell that `p` wraps around to.
    pub open spec fn richness(&self, p: Position) -> usize {
        self.cell(p.x as int % self.spec_width(), p.y as int % self.spec_height())
    }

    /// The number of steps from `a` to `b` on the wrap-around grid.
    pub open spec fn distance(&self, a: Position, b: Position) -> int {
        ring_distance(self.wrapped(a).x as int, self.wrapped(b).x as int, self.spec_width())
            + ring_distance(
            self.wrapped(a).y as int,
            self.wrapped(b).y as int,
            self.spec_height(),
        )
    }

    pub proof fn lemma_wf(&self)
        requires
            self.wf(),
        ensures
            0 < self.spec_width() <= i32::MAX,
            0 < self.spec_height() <= i32::MAX,
    {
    }

    /// A grid from its rows, top row first; `None` unless there are
    /// `height` rows of `width` cells and both dimensions are positive and
    /// fit a coordinate.
    pub fn new(width: usize, height: usize, cells: Vec<Vec<usize>>) -> (r: Option<GameMap>)
        ensures
            r is Some <==> grid_ok(width, height, cells@),
            r matches Some(m) ==> {
                &&& m.wf()
                &&& m.spec_width() == width
                &&& m.spec_height() == height
                &&& forall|x: int, y: int|
                    0 <= x < width && 0 <= y < height ==> #[trigger] m.cell(x, y) == cells@[y]@[x]
            },
    {
        if width == 0 || width > 0x7fff_ffff || height == 0 || height > 0x7fff_ffff {
            return None;
        }
        if cells.len() != height {
            return None;
        }
        let mut i: usize = 0;
        while i < cells.len()
            invariant
                0 <= i <= cells.len(),
                forall|j: int| 0 <= j < i ==> (#[trigger] cells@[j]).len() == width,
            decreases cells.len() - i,
        {
            if cells[i].len() != width {
                return None;
            }
            i += 1;
        }
        Some(GameMap { width, height, cells })
    }

    pub fn width(&self) -> (r: usize)
        ensures
            r == self.spec_width(),
    {
        self.width
    }

    pub fn height(&self) -> (r: usize)
        ensures
            r == self.spec_height(),
    {
        self.height
    }

    /// Wraps a position into the grid.
    pub fn normalize(&self, position: &Position) -> (r: Position)
        requires
            self.wf(),
        ensures
            r == self.wrapped(*position),
            self.in_grid(r),
    {
        Position {
            x: wrap_axis(position.x, self.width),
            y: wrap_axis(position.y, self.height),
        }
    }

    /// The halite on the cell of `position`.
    pub fn at_position(&self, position: &Position) -> (r: usize)
        requires
            self.wf(),
        ensures
            r == self.richness(*position),
    {
        let p = self.normalize(position);
        self.cells[p.y as usize][p.x as usize]
    }

    /// The halite on the cell on which `ship` sits.
    pub fn at_entity(&self, ship: &Ship) -> (r: usize)
        requires
            self.wf(),
        ensures
            r == self.richness(ship.position),
    {
        self.at_position(&ship.position)
    }

    pub fn calculate_distance(&self, source: &Position, target: &Position) -> (r: usize)
        requires
            self.wf(),
        ensures
            r == self.distance(*source, *target),
    {
        let s = self.normalize(source);
        let t = self.normalize(target);
        ring_steps(s.x, t.x, self.width) + ring_steps(s.y, t.y, self.height)
    }

    /// The least and the greatest halite that lies on any cell.
    pub fn find_min_max(&self) -> (r: (usize, usize))
        requires
            self.wf(),
        ensures
            forall|x: int, y: int|
                0 <= x < self.spec_width() && 0 <= y < self.spec_height() ==> r.0
                    <= #[trigger] self.cell(x, y) <= r.1,
            exists|x: int, y: int|
                0 <= x < self.spec_width() && 0 <= y < self.spec_height() && #[trigger] self.cell(
                    x,
                    y,
                ) == r.0,
            exists|x: int, y: int|
                0 <= x < self.spec_width() && 0 <= y < self.spec_height() && #[trigger] self.cell(
                    x,
                    y,
                ) == r.1,
    {
        let mut min: usize = self.cells[0][0];
        let mut max: usize = self.cells[0][0];
        let ghost mut lo: (int, int) = (0, 0);
        let ghost mut hi: (int, int) = (0, 0);
        let mut y: usize = 0;
        while y < self.height
            invariant
                self.wf(),
                0 <= y <= self.height,
                forall|a: int, b: int|
                    0 <= a < self.width && 0 <= b < y ==> min <= #[trigger] self.cell(a, b) <= max,
                0 <= lo.0 < self.width && 0 <= lo.1 < self.height && self.cell(lo.0, lo.1) == min,
                0 <= hi.0 < self.width && 0 <= hi.1 < self.height && self.cell(hi.0, hi.1) == max,
            decreases self.height - y,
        {
            let mut x: usize = 0;
            while x < self.width
                invariant
                    self.wf(),
                    0 <= y < self.height,
                    0 <= x <= self.width,
                    forall|a: int, b: int|
                        0 <= a < self.width && 0 <= b < y ==> min <= #[trigger] self.cell(a, b)
                            <= max,
                    forall|a: int| 0 <= a < x ==> min <= #[trigger] self.cell(a, y as int) <= max,
                    0 <= lo.0 < self.width && 0 <= lo.1 < self.height && self.cell(lo.0, lo.1)
                        == min,
                    0 <= hi.0 < self.width && 0 <= hi.1 < self.height && self.cell(hi.0, hi.1)
                        == max,
                decreases self.width - x,
            {
                let halite = self.cells[y][x];
                if min > halite {
                    min = halite;
                    proof {
                        lo = (x as int, y as int);
                    }
                }
                if max < halite {
                    max = halite;
                    proof {
                        hi = (x as int, y as int);
                    }
                }
                x += 1;
            }
            y += 1;
        }
        proof {
            assert(self.cell(lo.0, lo.1) == min);
            assert(self.cell(hi.0, hi.1) == max);
        }
        (min, max)
    }

    /// The greatest distance from `shipyard` to any of `ships`; zero for no
    /// ships.
    pub fn calculate_max_distance(&self, ships: &Vec<Ship>, shipyard: &Position) -> (r: usize)
        requires
            self.wf(),
        ensures
            forall|i: int|
                0 <= i < ships.len() ==> self.distance(*shipyard, (#[trigger] ships[i]).position)
                    <= r,
            ships.len() == 0 ==> r == 0,
            ships.len() > 0 ==> exists|i: int|
                0 <= i < ships.len() && self.distance(*shipyard, (#[trigger] ships[i]).position)
                    == r,
    {
        let mut max_distance: usize = 0;
        let ghost mut at: int = 0;
        let mut i: usize = 0;
        while i < ships.len()
            invariant
                self.wf(),
                0 <= i <= ships.len(),
                forall|j: int|
                    0 <= j < i ==> self.distance(*shipyard, (#[trigger] ships[j]).position)
                        <= max_distance,
                i == 0 ==> max_distance == 0,
                i > 0 ==> 0 <= at < i && self.distance(*shipyard, ships[at].position)
                    == max_distance,
            decreases ships.len() - i,
        {
            let distance = self.calculate_distance(shipyard, &ships[i].position);
            if max_distance < distance || i == 0 {
                max_distance = distance;
                proof {
                    at = i as int;
                }
            }
            i += 1;
        }
        max_distance
    }
}

/// The halite of a cell does not depend on which of its coordinates names
/// it, and neither does a distance.
pub proof fn lemma_wrapped_names_the_same_cell(map: &GameMap, p: Position, q: Position)
    requires
        map.wf(),
    ensures
        map.wrapped(map.wrapped(p)) == map.wrapped(p),
        map.richness(map.wrapped(p)) == map.richness(p),
        map.distance(map.wrapped(p), q) == map.distance(p, q),
        map.distance(p, map.wrapped(q)) == map.distance(p, q),
{
    map.lemma_wf();
    let w = map.spec_width();
    let h = map.spec_height();
    vstd::arithmetic::div_mod::lemma_mod_twice(p.x as int, w);
    vstd::arithmetic::div_mod::lemma_mod_twice(p.y as int, h);
    vstd::arithmetic::div_mod::lemma_mod_twice(q.x as int, w);
    vstd::arithmetic::div_mod::lemma_mod_twice(q.y as int, h);
    vstd::arithmetic::div_mod::lemma_mod_bound(p.x as int, w);
    vstd::arithmetic::div_mod::lemma_mod_bound(p.y as int, h);
    vstd::arithmetic::div_mod::lemma_mod_bound(q.x as int, w);
    vstd::arithmetic::div_mod::lemma_mod_bound(q.y as int, h);
}

/// `v` wrapped into `0 <= r < m`.
pub fn wrap_axis(v: i32, m: usize) -> (r: i32)
    requires
        0 < m <= i32::MAX,
    ensures
        r == (v as int) % (m as int),
        0 <= r < m,
{
    let m: i32 = m as i32;
    if v >= 0 {
        v % m
    } else {
        let n: i32 = -(v + 1);
        let k: i32 = n % m;
        proof {
            vstd::arithmetic::div_mod::lemma_fundamental_div_mod(n as int, m as int);
            let q = n as int / m as int;
            assert(n as int == m as int * q + k as int);
            assert((-q - 1) * m as int == -(m as int * q) - m as int) by (nonlinear_arith);
            vstd::arithmetic::div_mod::lemma_fundamental_div_mod_converse(
                v as int,
                m as int,
                -q - 1,
                m as int - 1 - k as int,
            );
        }
        m - 1 - k
    }
}

/// The distance between two wrapped coordinates on a ring of `size` cells.
pub fn ring_steps(a: i32, b: i32, size: usize) -> (r: usize)
    requires
        0 <= a < size <= i32::MAX,
        0 <= b < size,
    ensures
        r == ring_distance(a as int, b as int, size as int),
        2 * r <= size,
{
    let direct: usize = if a < b {
        (b - a) as usize
    } else {
        (a - b) as usize
    };
    let round: usize = size - direct;
    if direct <= round {
        direct
    } else {
        round
    }
}

} // verus!
