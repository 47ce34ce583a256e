//! The terrain map that the path finding searches walk over: a grid of
//! terrain cells, each with a traversal status, plus a start and a goal.

use vstd::prelude::*;

verus! {

/// A kind of ground, each with a movement cost; water cannot be entered.
#[derive(Debug, Copy, Clone, PartialEq, Eq, Structural)]
pub enum Terrain {
    Road,
    Field,
    Forest,
    Hills,
    River,
    Mountains,
    Water,
}

/// The terrain named by a map character, if any.
pub open spec fn terrain_from_spec(c: char) -> Option<Terrain> {
    match c {
        'R' => Some(Terrain::Road),
        'f' => Some(Terrain::Field),
        'F' => Some(Terrain::Forest),
        'h' => Some(Terrain::Hills),
        'r' => Some(Terrain::River),
        'M' => Some(Terrain::Mountains),
        'W' => Some(Terrain::Water),
        _ => None,
    }
}

/// The movement cost of a terrain; water is never entered and costs nothing.
pub open spec fn terrain_cost_spec(t: Terrain) -> int {
    match t {
        Terrain::Road => 1,
        Terrain::Field => 2,
        Terrain::Forest => 4,
        Terrain::Hills => 5,
        Terrain::River => 7,
        Terrain::Mountains => 10,
        Terrain::Water => 0,
    }
}

impl Terrain {
    /// Parse one map character.
    pub fn from(c: &char) -> (r: Option<Terrain>)
        ensures
            r == terrain_from_spec(*c),
    {
        match *c {
            'R' => Some(Terrain::Road),
            'f' => Some(Terrain::Field),
            'F' => Some(Terrain::Forest),
            'h' => Some(Terrain::Hills),
            'r' => Some(Terrain::River),
            'M' => Some(Terrain::Mountains),
            'W' => Some(Terrain::Water),
            _ => None,
        }
    }

    /// The cost of stepping onto this terrain.
    pub fn cost(&self) -> (r: usize)
        ensures
            r == terrain_cost_spec(*self),
    {
        match self {
            Terrain::Road => 1,
            Terrain::Field => 2,
            Terrain::Forest => 4,
            Terrain::Hills => 5,
            Terrain::River => 7,
            Terrain::Mountains => 10,
            Terrain::Water => 0,
        }
    }
}

/// What a search has done with a cell: untouched, on the final path, or
/// pointing back toward where it was reached from, active until processed.
#[derive(Copy, Clone, PartialEq, Eq, Structural, Debug)]
pub enum Status {
    Unvisited,
    Path,
    Up(bool),
    Down(bool),
    Left(bool),
    Right(bool),
}

/// The status once its cell has been processed: an active arrow goes quiet,
/// everything else stays as it is.
pub open spec fn deactivate_spec(s: Status) -> Status {
    match s {
        Status::Up(true) => Status::Up(false),
        Status::Down(true) => Status::Down(false),
        Status::Left(true) => Status::Left(false),
        Status::Right(true) => Status::Right(false),
        _ => s,
    }
}

impl Status {
    /// Quiet an active arrow; anything else is left alone.
    pub fn deactivate(&mut self)
        ensures
            *final(self) == deactivate_spec(*old(self)),
    {
        match self {
            Status::Up(true) => *self = Status::Up(false),
            Status::Down(true) => *self = Status::Down(false),
            Status::Left(true) => *self = Status::Left(false),
            Status::Right(true) => *self = Status::Right(false),
            _ => (),
        }
    }
}

/// One cell of the map: its terrain and its traversal status.
pub type Spot = (Terrain, Status);

/// A grid position: column, then row.
pub type Vec2 = (usize, usize);

/// One entry of a search frontier: the step it was reached at, its position,
/// and the accumulated cost of reaching it.
#[derive(Debug, Hash, PartialEq, Eq, Clone, Copy)]
pub struct Visit {
    pub step: usize,
    pub loc: Vec2,
    pub cost: usize,
}

impl Visit {
    /// Bundle a frontier entry.
    pub fn new(step: usize, loc: Vec2, cost: usize) -> (r: Visit)
        ensures
            r.step == step,
            r.loc == loc,
            r.cost == cost,
    {
        Visit { step, loc, cost }
    }
}

/// Which distance a heuristic uses.
#[derive(Clone, Copy, PartialEq, Eq, Structural, Debug)]
pub enum DistMode {
    TaxiCab,
    Euclidean,
}

/// The taxicab distance between two positions.
pub open spec fn taxi_dist(a: Vec2, b: Vec2) -> int {
    abs_diff_spec(a.0 as int, b.0 as int) + abs_diff_spec(a.1 as int, b.1 as int)
}

/// The squared euclidean distance between two positions.
pub open spec fn euclid_sq(a: Vec2, b: Vec2) -> int {
    abs_diff_spec(a.0 as int, b.0 as int) * abs_diff_spec(a.0 as int, b.0 as int) + abs_diff_spec(
        a.1 as int,
        b.1 as int,
    ) * abs_diff_spec(a.1 as int, b.1 as int)
}

/// The absolute difference of two integers.
pub open spec fn abs_diff_spec(a: int, b: int) -> int {
    if a >= b {
        a - b
    } else {
        b - a
    }
}

/// The floor of the square root of `x`.
pub fn isqrt(x: usize) -> (r: usize)
    ensures
        r as int * r as int <= x as int,
        (x as int) < (r as int + 1) * (r as int + 1),
{
    let big: u128 = x as u128;
    let mut r: u128 = 0;
    let mut done = false;
    while !done
        invariant
            big == x as u128,
            r * r <= big,
            r < 0x1_0000_0000u128,
            done ==> big < (r + 1) * (r + 1),
        decreases (if done {
            0int
        } else {
            1int
        }), x as int - (r * r) as int,
    {
        let next = r + 1;
        proof {
            assert(next * next <= 0x1_0000_0000_0000_0000u128) by (nonlinear_arith)
                requires
                    next <= 0x1_0000_0000u128,
            ;
        }
        let sq = next * next;
        if sq <= big {
            proof {
                assert(next < 0x1_0000_0000u128) by (nonlinear_arith)
                    requires
                        next * next <= 0xffff_ffff_ffff_ffffu128,
                        next >= 1,
                ;
                assert(next * next > r * r) by (nonlinear_arith)
                    requires
                        next == r + 1,
                ;
            }
            r = next;
        } else {
            done = true;
        }
    }
    r as usize
}

/// The distance between two positions under the chosen mode: the taxicab
/// sum, or the floor of the euclidean length.
pub fn dist(a: Vec2, b: Vec2, mode: DistMode) -> (r: usize)
    requires
        mode == DistMode::TaxiCab ==> taxi_dist(a, b) <= usize::MAX,
        mode == DistMode::Euclidean ==> euclid_sq(a, b) <= usize::MAX,
    ensures
        mode == DistMode::TaxiCab ==> r == taxi_dist(a, b),
        mode == DistMode::Euclidean ==> (r as int * r as int <= euclid_sq(a, b) && euclid_sq(a, b)
            < (r as int + 1) * (r as int + 1)),
{
    let dx = if a.0 >= b.0 {
        a.0 - b.0
    } else {
        b.0 - a.0
    };
    let dy = if a.1 >= b.1 {
        a.1 - b.1
    } else {
        b.1 - a.1
    };
    match mode {
        DistMode::TaxiCab => dx + dy,
        DistMode::Euclidean => {
            proof {
                assert(dx * dx <= dx as int * dx as int) by (nonlinear_arith);
            }
            isqrt(dx * dx + dy * dy)
        },
    }
}

/// The map: a grid of cells, running costs for the searches that track them,
/// and the fixed start and goal positions.
pub struct TerrainMap {
    pub map: Vec<Vec<Spot>>,
    pub costs: Vec<Vec<usize>>,
    pub display_costs: bool,
    pub dim: Vec2,
    pub start: Vec2,
    pub goal: Vec2,
}

impl TerrainMap {
    /// Well-formed: the grid matches the stated dimensions and the start and
    /// goal lie on it.
    pub open spec fn wf(self) -> bool {
        &&& self.dim.0 >= 1 && self.dim.1 >= 1
        &&& self.map@.len() == self.dim.1
        &&& forall|r: int| 0 <= r < self.dim.1 ==> (#[trigger] self.map@[r])@.len() == self.dim.0
        &&& self.start.0 < self.dim.0 && self.start.1 < self.dim.1
        &&& self.goal.0 < self.dim.0 && self.goal.1 < self.dim.1
    }

    /// The cell at a position, if it is on the map and not water.
    pub open spec fn at_spec(self, loc: Vec2) -> Option<Spot> {
        if loc.0 < self.dim.0 && loc.1 < self.dim.1 && self.map@[loc.1 as int]@[loc.0 as int].0
            != Terrain::Water {
            Some(self.map@[loc.1 as int]@[loc.0 as int])
        } else {
            None
        }
    }

    /// Read the cell at a position: the position must be on the map and its
    /// terrain must not be water, else nothing is returned.
    pub fn at(&self, loc: Vec2) -> (r: Option<Spot>)
        requires
            self.wf(),
        ensures
            r == self.at_spec(loc),
    {
        if loc.0 < self.dim.0 && loc.1 < self.dim.1 {
            let spot = self.map[loc.1][loc.0];
            if spot.0 != Terrain::Water {
                return Some(spot);
            }
        }
        None
    }

    /// Overwrite the cell at a position. On the map, the cell is replaced
    /// and true comes back; off it, nothing changes and false comes back.
    pub fn at_mut(&mut self, loc: Vec2, spot: Spot) -> (r: bool)
        requires
            old(self).wf(),
        ensures
            final(self).wf(),
            r == (loc.0 < old(self).dim.0 && loc.1 < old(self).dim.1),
            final(self).dim == old(self).dim,
            final(self).costs == old(self).costs,
            final(self).display_costs == old(self).display_costs,
            final(self).start == old(self).start,
            final(self).goal == old(self).goal,
            final(self).map@.len() == old(self).map@.len(),
            r ==> {
                &&& forall|rr: int|
                    0 <= rr < old(self).map@.len() && rr != loc.1 ==> final(self).map@[rr] == old(
                        self,
                    ).map@[rr]
                &&& final(self).map@[loc.1 as int]@ =~= old(self).map@[loc.1 as int]@.update(
                    loc.0 as int,
                    spot,
                )
            },
            !r ==> final(self).map@ == old(self).map@,
    {
        if loc.0 < self.dim.0 && loc.1 < self.dim.1 {
            let row = &mut self.map[loc.1];
            row.set(loc.0, spot);
            return true;
        }
        false
    }

    /// Where the arrow at a position points: one step in its direction. The
    /// position must hold a reachable cell, and an arrow must not point off
    /// the map.
    pub fn follow(&self, loc: Vec2) -> (r: Option<Vec2>)
        requires
            self.wf(),
            self.at_spec(loc) is Some,
            (self.at_spec(loc)->Some_0.1 is Up ==> loc.1 >= 1),
            (self.at_spec(loc)->Some_0.1 is Left ==> loc.0 >= 1),
            (self.at_spec(loc)->Some_0.1 is Down ==> loc.1 + 1 <= usize::MAX),
            (self.at_spec(loc)->Some_0.1 is Right ==> loc.0 + 1 <= usize::MAX),
        ensures
            r == (match self.at_spec(loc)->Some_0.1 {
                Status::Up(_) => Some((loc.0, (loc.1 - 1) as usize)),
                Status::Down(_) => Some((loc.0, (loc.1 + 1) as usize)),
                Status::Left(_) => Some(((loc.0 - 1) as usize, loc.1)),
                Status::Right(_) => Some(((loc.0 + 1) as usize, loc.1)),
                _ => None::<Vec2>,
            }),
    {
        let spot = self.at(loc);
        match spot {
            Some((_, Status::Up(_))) => Some((loc.0, loc.1 - 1)),
            Some((_, Status::Down(_))) => Some((loc.0, loc.1 + 1)),
            Some((_, Status::Left(_))) => Some((loc.0 - 1, loc.1)),
            Some((_, Status::Right(_))) => Some((loc.0 + 1, loc.1)),
            _ => None,
        }
    }

    /// The untouched reachable cell above, if any.
    pub fn go_up(&self, loc: &Vec2) -> (r: Option<Vec2>)
        requires
            self.wf(),
        ensures
            r == (if loc.1 >= 1 && (self.at_spec(((loc.0, (loc.1 - 1) as usize))) matches Some(s)
                && s.1 == Status::Unvisited) {
                Some((loc.0, (loc.1 - 1) as usize))
            } else {
                None::<Vec2>
            }),
    {
        if loc.1 == 0 {
            return None;
        }
        let dest = (loc.0, loc.1 - 1);
        if let Some((_, s)) = self.at(dest) {
            if s == Status::Unvisited {
                return Some(dest);
            }
        }
        None
    }

    /// The untouched reachable cell below, if any.
    pub fn go_down(&self, loc: &Vec2) -> (r: Option<Vec2>)
        requires
            self.wf(),
            loc.1 < self.dim.1,
        ensures
            r == (if self.at_spec(((loc.0, (loc.1 + 1) as usize))) matches Some(s) && s.1
                == Status::Unvisited {
                Some((loc.0, (loc.1 + 1) as usize))
            } else {
                None::<Vec2>
            }),
    {
        let dest = (loc.0, loc.1 + 1);
        if let Some((_, s)) = self.at(dest) {
            if s == Status::Unvisited {
                return Some(dest);
            }
        }
        None
    }

    /// The untouched reachable cell to the left, if any.
    pub fn go_left(&self, loc: &Vec2) -> (r: Option<Vec2>)
        requires
            self.wf(),
        ensures
            r == (if loc.0 >= 1 && (self.at_spec((((loc.0 - 1) as usize, loc.1))) matches Some(s)
                && s.1 == Status::Unvisited) {
                Some(((loc.0 - 1) as usize, loc.1))
            } else {
                None::<Vec2>
            }),
    {
        if loc.0 == 0 {
            return None;
        }
        let dest = (loc.0 - 1, loc.1);
        if let Some((_, s)) = self.at(dest) {
            if s == Status::Unvisited {
                return Some(dest);
            }
        }
        None
    }

    /// The untouched reachable cell to the right, if any.
    pub fn go_right(&self, loc: &Vec2) -> (r: Option<Vec2>)
        requires
            self.wf(),
            loc.0 < self.dim.0,
        ensures
            r == (if self.at_spec((((loc.0 + 1) as usize, loc.1))) matches Some(s) && s.1
                == Status::Unvisited {
                Some(((loc.0 + 1) as usize, loc.1))
            } else {
                None::<Vec2>
            }),
    {
        let dest = (loc.0 + 1, loc.1);
        if let Some((_, s)) = self.at(dest) {
            if s == Status::Unvisited {
                return Some(dest);
            }
        }
        None
    }

    /// The reachable cell above, whatever its status, if any.
    pub fn get_up(&self, loc: &Vec2) -> (r: Option<Vec2>)
        requires
            self.wf(),
        ensures
            r == (if loc.1 >= 1 && self.at_spec(((loc.0, (loc.1 - 1) as usize))) is Some {
                Some((loc.0, (loc.1 - 1) as usize))
            } else {
                None::<Vec2>
            }),
    {
        if loc.1 == 0 {
            return None;
        }
        let dest = (loc.0, loc.1 - 1);
        match self.at(dest) {
            Some(_) => Some(dest),
            _ => None,
        }
    }

    /// The reachable cell below, whatever its status, if any.
    pub fn get_down(&self, loc: &Vec2) -> (r: Option<Vec2>)
        requires
            self.wf(),
            loc.1 < self.dim.1,
        ensures
            r == (if self.at_spec(((loc.0, (loc.1 + 1) as usize))) is Some {
                Some((loc.0, (loc.1 + 1) as usize))
            } else {
                None::<Vec2>
            }),
    {
        let dest = (loc.0, loc.1 + 1);
        match self.at(dest) {
            Some(_) => Some(dest),
            _ => None,
        }
    }

    /// The reachable cell to the left, whatever its status, if any.
    pub fn get_left(&self, loc: &Vec2) -> (r: Option<Vec2>)
        requires
            self.wf(),
        ensures
            r == (if loc.0 >= 1 && self.at_spec((((loc.0 - 1) as usize, loc.1))) is Some {
                Some(((loc.0 - 1) as usize, loc.1))
            } else {
                None::<Vec2>
            }),
    {
        if loc.0 == 0 {
            return None;
        }
        let dest = (loc.0 - 1, loc.1);
        match self.at(dest) {
            Some(_) => Some(dest),
            _ => None,
        }
    }

    /// The reachable cell to the right, whatever its status, if any.
    pub fn get_right(&self, loc: &Vec2) -> (r: Option<Vec2>)
        requires
            self.wf(),
            loc.0 < self.dim.0,
        ensures
            r == (if self.at_spec((((loc.0 + 1) as usize, loc.1))) is Some {
                Some(((loc.0 + 1) as usize, loc.1))
            } else {
                None::<Vec2>
            }),
    {
        let dest = (loc.0 + 1, loc.1);
        match self.at(dest) {
            Some(_) => Some(dest),
            _ => None,
        }
    }
}

} // verus!
