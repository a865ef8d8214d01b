//! The grid model: elevations over a rectangle of cells.

use vstd::prelude::*;
use crate::error::PlanError;
use crate::point::{span, Point};

verus! {

/// A rectangular map of elevations, with the rover's landing point and the
/// sites it is to reach.
#[derive(Clone, Debug, PartialEq, Eq)]
pub struct RoverMap {
    /// The number of columns.
    pub width: u32,
    /// The number of rows.
    pub height: u32,
    /// Where the rover lands.
    pub landing_coords: Point,
    /// The sites to reach, in the order in which routes are reported.
    pub target_sites: Vec<Point>,
    /// The elevations, one inner vector per row.
    pub elevations: Vec<Vec<u32>>,
}

impl RoverMap {
    /// There are exactly `height` rows of exactly `width` elevations.
    pub open spec fn wf(&self) -> bool {
        &&& self.elevations@.len() == self.height
        &&& forall|r: int|
            0 <= r < self.elevations@.len() ==> (#[trigger] self.elevations@[r])@.len()
                == self.width
    }

    /// The point names a cell of the grid.
    pub open spec fn in_bounds(&self, p: Point) -> bool {
        p.x < self.width && p.y < self.height
    }

    /// The elevation of the cell `p`.
    pub open spec fn elevation(&self, p: Point) -> u32
        recommends
            self.wf(),
            self.in_bounds(p),
    {
        self.elevations@[p.y as int]@[p.x as int]
    }

    /// The elevations of the two cells differ by at most `max_delta`.
    pub open spec fn passable(&self, from: Point, to: Point, max_delta: u32) -> bool {
        span(self.elevation(from), self.elevation(to)) <= max_delta
    }

    /// The rover can move from `from` to `to` in one step: both are cells
    /// of the grid, they are neighbours, and the change of elevation is
    /// within `max_delta`.
    pub open spec fn feasible_step(&self, max_delta: u32, from: Point, to: Point) -> bool {
        &&& self.in_bounds(from)
        &&& self.in_bounds(to)
        &&& from.adjacent(to)
        &&& self.passable(from, to, max_delta)
    }

    /// The neighbour of `p` at position `k` of the three by three block
    /// around it, read row by row, where that is a cell of the grid other
    /// than `p`.
    pub open spec fn neighbor_at(&self, p: Point, k: int) -> Option<Point> {
        let x = p.x + k % 3 - 1;
        let y = p.y + k / 3 - 1;
        if k != 4 && 0 <= x < self.width && 0 <= y < self.height {
            Some(Point { x: x as u32, y: y as u32 })
        } else {
            None
        }
    }

    /// The neighbours of `p` among the first `n` positions of the block
    /// around it.
    pub open spec fn neighbors_among(&self, p: Point, n: nat) -> Seq<Point>
        decreases n,
    {
        if n == 0 {
            Seq::empty()
        } else {
            let rest = self.neighbors_among(p, (n - 1) as nat);
            match self.neighbor_at(p, n - 1) {
                Some(q) => rest.push(q),
                None => rest,
            }
        }
    }

    /// The cells of the grid next to `p`, along rows, columns and
    /// diagonals, read row by row.
    pub open spec fn neighbor_points(&self, p: Point) -> Seq<Point> {
        self.neighbors_among(p, 9)
    }

    /// A map from its parts. The parts are taken as they are:
    /// `is_well_formed` tells whether the elevations fill the grid, which is
    /// what the functions that read elevations ask for.
    pub fn generate(
        width: u32,
        height: u32,
        landing_coords: Point,
        target_sites: Vec<Point>,
        elevations: Vec<Vec<u32>>,
    ) -> (map: RoverMap)
        ensures
            map.width == width,
            map.height == height,
            map.landing_coords == landing_coords,
            map.target_sites == target_sites,
            map.elevations == elevations,
    {
        RoverMap { width, height, landing_coords, target_sites, elevations }
    }

    /// Whether the elevations have the shape that `width` and `height`
    /// announce.
    pub fn is_well_formed(&self) -> (b: bool)
        ensures
            b == self.wf(),
    {
        if self.elevations.len() != self.height as usize {
            return false;
        }
        let mut r: usize = 0;
        while r < self.elevations.len()
            invariant
                r <= self.elevations@.len(),
                forall|k: int| 0 <= k < r ==> (#[trigger] self.elevations@[k])@.len() == self.width,
            decreases self.elevations@.len() - r,
        {
            if self.elevations[r].len() != self.width as usize {
                return false;
            }
            r += 1;
        }
        true
    }

    /// Whether `p` names a cell of the grid.
    pub fn contains(&self, p: Point) -> (b: bool)
        ensures
            b == self.in_bounds(p),
    {
        p.x < self.width && p.y < self.height
    }

    /// The elevation of the cell `p`, or `OutOfBounds` where `p` is no cell
    /// of the grid.
    pub fn elevation_at(&self, p: Point) -> (r: Result<u32, PlanError>)
        requires
            self.wf(),
        ensures
            self.in_bounds(p) ==> r == Ok::<u32, PlanError>(self.elevation(p)),
            !self.in_bounds(p) ==> r == Err::<u32, PlanError>(PlanError::OutOfBounds),
    {
        if p.x < self.width && p.y < self.height {
            Ok(self.elevations[p.y as usize][p.x as usize])
        } else {
            Err(PlanError::OutOfBounds)
        }
    }

    /// The cells of the grid next to `p`: each cell that differs from `p`
    /// by at most one column and one row, once.
    pub fn neighbors(&self, p: Point) -> (cells: Vec<Point>)
        ensures
            cells@ == self.neighbor_points(p),
            cells@.no_duplicates(),
            forall|i: int|
                0 <= i < cells@.len() ==> self.in_bounds(#[trigger] cells@[i]) && p.adjacent(
                    cells@[i],
                ),
            forall|q: Point| self.in_bounds(q) && p.adjacent(q) ==> cells@.contains(q),
    {
        let mut cells: Vec<Point> = Vec::new();
        let mut k: u8 = 0;
        while k < 9
            invariant
                k <= 9,
                cells@ == self.neighbors_among(p, k as nat),
                forall|i: int|
                    0 <= i < cells@.len() ==> self.in_bounds(#[trigger] cells@[i]) && p.adjacent(
                        cells@[i],
                    ) && block_position(p, cells@[i]) < k,
                forall|i: int, j: int|
                    0 <= i < j < cells@.len() ==> block_position(p, #[trigger] cells@[i])
                        < block_position(p, #[trigger] cells@[j]),
                forall|j: int|
                    0 <= j < k && (#[trigger] self.neighbor_at(p, j)) is Some ==> cells@.contains(
                        self.neighbor_at(p, j)->0,
                    ),
            decreases 9 - k,
        {
            let x: i64 = p.x as i64 + (k % 3) as i64 - 1;
            let y: i64 = p.y as i64 + (k / 3) as i64 - 1;
            let ghost before = cells@;
            if k != 4 && 0 <= x && x < self.width as i64 && 0 <= y && y < self.height as i64 {
                let q = Point { x: x as u32, y: y as u32 };
                cells.push(q);
                assert(cells@[before.len() as int] == q);
                assert(block_position(p, q) == k);
            }
            assert forall|j: int|
                0 <= j < k + 1 && (#[trigger] self.neighbor_at(p, j)) is Some implies cells@.contains(
                self.neighbor_at(p, j)->0,
            ) by {
                if j < k {
                    let i = choose|i: int|
                        0 <= i < before.len() && before[i] == self.neighbor_at(p, j)->0;
                    assert(cells@[i] == before[i]);
                } else {
                    assert(cells@[before.len() as int] == self.neighbor_at(p, j)->0);
                }
            }
            k += 1;
        }
        assert forall|q: Point| self.in_bounds(q) && p.adjacent(q) implies cells@.contains(q) by {
            let j = block_position(p, q);
            assert(self.neighbor_at(p, j) == Some(q));
        }
        cells
    }
}

/// Where `q` stands in the three by three block around `p`, counted row by
/// row from 0.
pub open spec fn block_position(p: Point, q: Point) -> int {
    (q.y - p.y + 1) * 3 + (q.x - p.x + 1)
}

proof fn lemma_neighbors_among(map: &RoverMap, p: Point, n: nat)
    requires
        n <= 9,
    ensures
        forall|i: int|
            0 <= i < map.neighbors_among(p, n).len() ==> map.in_bounds(
                #[trigger] map.neighbors_among(p, n)[i],
            ) && p.adjacent(map.neighbors_among(p, n)[i]) && block_position(
                p,
                map.neighbors_among(p, n)[i],
            ) < n,
        forall|q: Point|
            map.in_bounds(q) && p.adjacent(q) && block_position(p, q) < n
                ==> map.neighbors_among(p, n).contains(q),
    decreases n,
{
    if n > 0 {
        let rest = map.neighbors_among(p, (n - 1) as nat);
        let all = map.neighbors_among(p, n);
        lemma_neighbors_among(map, p, (n - 1) as nat);
        assert forall|q: Point|
            map.in_bounds(q) && p.adjacent(q) && block_position(p, q) < n implies all.contains(
            q,
        ) by {
            if block_position(p, q) < n - 1 {
                let i = choose|i: int| 0 <= i < rest.len() && rest[i] == q;
                assert(all[i] == q);
            } else {
                assert(map.neighbor_at(p, n - 1) == Some(q));
                assert(all[rest.len() as int] == q);
            }
        }
    }
}

/// The neighbours of a cell are the cells of the grid that are one step
/// from it, all of them.
pub proof fn lemma_neighbor_points(map: &RoverMap, p: Point)
    ensures
        forall|i: int|
            0 <= i < map.neighbor_points(p).len() ==> map.in_bounds(
                #[trigger] map.neighbor_points(p)[i],
            ) && p.adjacent(map.neighbor_points(p)[i]),
        forall|q: Point| map.in_bounds(q) && p.adjacent(q) ==> map.neighbor_points(p).contains(q),
{
    lemma_neighbors_among(map, p, 9);
}

} // verus!
