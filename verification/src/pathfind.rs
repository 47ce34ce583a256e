//! Path finding over a terrain map: a breadth-first sweep and a family of
//! best-first sweeps ordered by a priority queue, each marking every reached
//! cell with the direction it was reached from, then walking the arrows back
//! from the goal.

use vstd::prelude::*;
use std::collections::VecDeque;
use crate::terrain_map::{dist, terrain_cost_spec, DistMode, Spot, Status, Terrain, TerrainMap, Vec2};

verus! {

broadcast use vstd::seq_lib::group_seq_properties;

/// Two positions lie one orthogonal step apart.
pub open spec fn step_adjacent(a: Vec2, b: Vec2) -> bool {
    ||| (a.0 == b.0 && (a.1 == b.1 + 1 || b.1 == a.1 + 1))
    ||| (a.1 == b.1 && (a.0 == b.0 + 1 || b.0 == a.0 + 1))
}

/// Consecutive entries of the walk lie one step apart.
pub open spec fn path_chain(p: Seq<Vec2>) -> bool {
    forall|i: int| 0 <= i < p.len() - 1 ==> step_adjacent(#[trigger] p[i], p[i + 1])
}

/// The summed terrain cost of the walked cells on a grid of cells.
pub open spec fn path_cost(g: Seq<Vec<Spot>>, p: Seq<Vec2>) -> int
    decreases p.len(),
{
    if p.len() == 0 {
        0
    } else {
        path_cost(g, p.drop_last()) + terrain_cost_spec(g[p.last().1 as int]@[p.last().0 as int].0)
    }
}

/// A walk grown by one adjacent step is still a chain.
pub proof fn lemma_chain_push(p: Seq<Vec2>, x: Vec2)
    requires
        path_chain(p),
        p.len() >= 1 ==> step_adjacent(p.last(), x),
    ensures
        path_chain(p.push(x)),
{
    assert forall|i: int| 0 <= i < p.push(x).len() - 1 implies step_adjacent(
        #[trigger] p.push(x)[i],
        p.push(x)[i + 1],
    ) by {
        if i < p.len() - 1 {
            assert(p.push(x)[i] == p[i] && p.push(x)[i + 1] == p[i + 1]);
        } else {
            assert(p.push(x)[i] == p.last() && p.push(x)[i + 1] == x);
        }
    }
}

/// How many cells of one row are still untouched.
pub open spec fn row_fresh(row: Seq<Spot>) -> int
    decreases row.len(),
{
    if row.len() == 0 {
        0
    } else {
        row_fresh(row.drop_last()) + if row.last().1 == Status::Unvisited {
            1int
        } else {
            0int
        }
    }
}

/// How many cells of the first `n` rows are still untouched.
pub open spec fn grid_fresh(g: Seq<Vec<Spot>>, n: int) -> int
    decreases n,
{
    if n <= 0 {
        0
    } else {
        grid_fresh(g, n - 1) + row_fresh(g[n - 1]@)
    }
}

/// A row's untouched count is bounded by its length, and changes exactly
/// with the mark written into it.
pub proof fn lemma_row_fresh_update(row: Seq<Spot>, i: int, s: Spot)
    requires
        0 <= i < row.len(),
    ensures
        row_fresh(row.update(i, s)) == row_fresh(row) + (if s.1 == Status::Unvisited {
            1int
        } else {
            0int
        }) - (if row[i].1 == Status::Unvisited {
            1int
        } else {
            0int
        }),
    decreases row.len(),
{
    if i == row.len() - 1 {
        assert(row.update(i, s).drop_last() =~= row.drop_last());
    } else {
        assert(row.update(i, s).drop_last() =~= row.drop_last().update(i, s));
        lemma_row_fresh_update(row.drop_last(), i, s);
    }
}

/// The untouched count is never negative and never above the row's length.
pub proof fn lemma_row_fresh_bounds(row: Seq<Spot>)
    ensures
        0 <= row_fresh(row) <= row.len(),
    decreases row.len(),
{
    if row.len() > 0 {
        lemma_row_fresh_bounds(row.drop_last());
    }
}

/// A whole grid's untouched count changes exactly with the mark written.
pub proof fn lemma_grid_fresh_update(g: Seq<Vec<Spot>>, g2: Seq<Vec<Spot>>, n: int, r: int, c: int, s: Spot)
    requires
        0 <= r < n <= g.len(),
        g2.len() == g.len(),
        0 <= c < g[r]@.len(),
        forall|a: int| 0 <= a < g.len() && a != r ==> g2[a] == g[a],
        g2[r]@ =~= g[r]@.update(c, s),
    ensures
        grid_fresh(g2, n) == grid_fresh(g, n) + (if s.1 == Status::Unvisited {
            1int
        } else {
            0int
        }) - (if g[r]@[c].1 == Status::Unvisited {
            1int
        } else {
            0int
        }),
    decreases n,
{
    if r == n - 1 {
        assert(grid_fresh(g2, n - 1) == grid_fresh(g, n - 1)) by {
            lemma_grid_fresh_same(g, g2, n - 1);
        }
        lemma_row_fresh_update(g[r]@, c, s);
    } else {
        lemma_grid_fresh_update(g, g2, n - 1, r, c, s);
        assert(g2[n - 1] == g[n - 1]);
    }
}

/// Two grids equal on their first `n` rows have the same untouched count.
pub proof fn lemma_grid_fresh_same(g: Seq<Vec<Spot>>, g2: Seq<Vec<Spot>>, n: int)
    requires
        n <= g.len(),
        g2.len() == g.len(),
        forall|a: int| 0 <= a < n ==> g2[a] == g[a],
    ensures
        grid_fresh(g2, n) == grid_fresh(g, n),
    decreases n,
{
    if n > 0 {
        lemma_grid_fresh_same(g, g2, n - 1);
    }
}

/// The whole grid's untouched count lies between zero and the cell count.
pub proof fn lemma_grid_fresh_bounds(g: Seq<Vec<Spot>>, n: int, cols: int)
    requires
        0 <= n <= g.len(),
        forall|a: int| 0 <= a < g.len() ==> (#[trigger] g[a])@.len() == cols,
        cols >= 0,
    ensures
        0 <= grid_fresh(g, n) <= n * cols,
    decreases n,
{
    if n > 0 {
        lemma_grid_fresh_bounds(g, n - 1, cols);
        lemma_row_fresh_bounds(g[n - 1]@);
        assert((n - 1) * cols + cols == n * cols) by (nonlinear_arith);
    }
}

/// What one breadth-first search produced.
pub struct SearchReport {
    /// The map after the search, its arrows and final path marked.
    pub map: TerrainMap,
    /// Whether a walk from the goal back to the start was found.
    pub found: bool,
    /// The walked cells, goal first and start last; empty when none found.
    pub path: Vec<Vec2>,
    /// The number of cells on the walk.
    pub dist: usize,
    /// The summed terrain cost of the walked cells.
    pub cost: usize,
    /// How many queue entries the sweep consumed.
    pub pops: usize,
}

/// What every search promises of its report: the returned map has the same
/// shape and terrain as the searched one; on success the returned walk runs
/// from the goal to the start one orthogonal step at a time, entirely on the
/// map, with its length and summed terrain cost reported exactly; on failure
/// the walk is empty.
pub open spec fn search_report_ok(orig: TerrainMap, r: SearchReport) -> bool {
    &&& r.map.wf()
    &&& r.map.dim == orig.dim && r.map.start == orig.start && r.map.goal == orig.goal
    &&& forall|a: int, b: int|
        0 <= a < orig.dim.1 && 0 <= b < orig.dim.0 ==> (#[trigger] r.map.map@[a]@[b]).0
            == orig.map@[a]@[b].0
    &&& r.found ==> {
        &&& r.path@.len() >= 1
        &&& r.path@.first() == orig.goal
        &&& r.path@.last() == orig.start
        &&& path_chain(r.path@)
        &&& forall|i: int|
            0 <= i < r.path@.len() ==> (#[trigger] r.path@[i]).0 < orig.dim.0 && r.path@[i].1
                < orig.dim.1 && orig.map@[r.path@[i].1 as int]@[r.path@[i].0 as int].0
                != Terrain::Water
        &&& r.dist == r.path@.len()
        &&& r.cost == path_cost(r.map.map@, r.path@)
    }
    &&& !r.found ==> r.path@.len() == 0
}

/// Grids that agree on terrain give every walk the same cost.
pub proof fn lemma_path_cost_congruent(g1: Seq<Vec<Spot>>, g2: Seq<Vec<Spot>>, p: Seq<Vec2>)
    requires
        g1.len() == g2.len(),
        forall|a: int| 0 <= a < g1.len() ==> (#[trigger] g1[a])@.len() == g2[a]@.len(),
        forall|a: int, b: int|
            0 <= a < g1.len() && 0 <= b < g1[a]@.len() ==> (#[trigger] g1[a]@[b]).0 == g2[a]@[b].0,
        forall|i: int|
            0 <= i < p.len() ==> (#[trigger] p[i]).1 < g1.len() && p[i].0
                < g1[p[i].1 as int]@.len(),
    ensures
        path_cost(g1, p) == path_cost(g2, p),
    decreases p.len(),
{
    if p.len() > 0 {
        lemma_path_cost_congruent(g1, g2, p.drop_last());
    }
}

/// Which frontier ordering a best-first search uses: plain accumulated cost,
/// the remaining taxicab distance alone, or the sum of cost and a taxicab or
/// euclidean distance heuristic.
#[derive(Clone, Copy, PartialEq, Eq, Structural, Debug)]
pub enum BestFirstMode {
    LowestCost,
    Greedy,
    AStarTaxi,
    AStarEuclid,
}

/// The running cost grid matches the map's dimensions.
pub open spec fn costs_shaped(m: TerrainMap) -> bool {
    &&& m.costs@.len() == m.dim.1
    &&& forall|r: int| 0 <= r < m.dim.1 ==> (#[trigger] m.costs@[r])@.len() == m.dim.0
}

/// The terrain cost of one cell of a map.
fn cost_at(m: &TerrainMap, loc: Vec2) -> (r: usize)
    requires
        m.wf(),
        loc.0 < m.dim.0,
        loc.1 < m.dim.1,
    ensures
        r == terrain_cost_spec(m.map@[loc.1 as int]@[loc.0 as int].0),
        0 <= r <= 10,
{
    let t = m.map[loc.1][loc.0].0;
    t.cost()
}

impl TerrainMap {
    /// Write a new traversal status into one cell, keeping its terrain.
    fn set_status(&mut self, loc: Vec2, st: Status)
        requires
            old(self).wf(),
            loc.0 < old(self).dim.0,
            loc.1 < old(self).dim.1,
        ensures
            final(self).wf(),
            final(self).dim == old(self).dim,
            final(self).start == old(self).start,
            final(self).goal == old(self).goal,
            final(self).costs == old(self).costs,
            final(self).display_costs == old(self).display_costs,
            final(self).map@.len() == old(self).map@.len(),
            forall|a: int|
                0 <= a < old(self).map@.len() && a != loc.1 ==> final(self).map@[a] == old(
                    self,
                ).map@[a],
            final(self).map@[loc.1 as int]@ =~= old(self).map@[loc.1 as int]@.update(
                loc.0 as int,
                (old(self).map@[loc.1 as int]@[loc.0 as int].0, st),
            ),
    {
        let t = self.map[loc.1][loc.0].0;
        let row = &mut self.map[loc.1];
        row.set(loc.0, (t, st));
    }

    /// Sweep breadth first from the start, marking each newly reached cell
    /// with the direction it was reached from, until the goal is reached or
    /// the frontier runs dry; then walk the arrows back from the goal,
    /// marking the walked cells as the path. The search starts on a map
    /// whose every cell is untouched. When it reports success, the returned
    /// walk runs from the goal to the start, one orthogonal step at a time,
    /// over cells of the map that are never water, and the reported distance
    /// and cost are its length and its summed terrain cost; the walk is cut
    /// off, and failure reported, if it would visit more cells than the map
    /// holds. The contract pins what a reported success means; the converse,
    /// that a reachable goal always yields one, is not stated here.
    #[verifier::rlimit(60)]
    #[verifier::spinoff_prover]
    pub fn breadth_first(&self) -> (r: SearchReport)
        requires
            self.wf(),
            forall|a: int, b: int|
                0 <= a < self.dim.1 && 0 <= b < self.dim.0 ==> (#[trigger] self.map@[a]@[b]).1
                    == Status::Unvisited,
            16 * ((self.dim.0 as int) * (self.dim.1 as int) + 1) <= usize::MAX,
        ensures
            search_report_ok(*self, r),
    {
        let ghost dim0 = self.dim.0 as int;
        let ghost dim1 = self.dim.1 as int;
        let mut map = self.copy_map();
        proof {
            lemma_grid_fresh_bounds(map.map@, dim1, dim0);
        }
        let cells: usize = self.dim.0 * self.dim.1;
        let start = map.start;
        let goal = map.goal;
        let mut q: VecDeque<Vec2> = VecDeque::new();
        let ghost pre = map.map@;
        map.set_status(start, Status::Path);
        proof {
            lemma_grid_fresh_update(
                pre,
                map.map@,
                dim1,
                start.1 as int,
                start.0 as int,
                (pre[start.1 as int]@[start.0 as int].0, Status::Path),
            );
            lemma_grid_fresh_bounds(map.map@, dim1, dim0);
        }
        q.push_back(start);
        let mut pops: usize = 0;
        let mut done = false;
        while q.len() != 0 && !done
            invariant
                map.wf(),
                map.dim == self.dim,
                map.start == self.start,
                map.goal == self.goal,
                start == self.start,
                goal == self.goal,
                cells == dim0 * dim1,
                dim0 == self.dim.0 as int,
                dim1 == self.dim.1 as int,
                16 * (dim0 * dim1 + 1) <= usize::MAX,
                forall|a: int, b: int|
                    0 <= a < dim1 && 0 <= b < dim0 ==> (#[trigger] map.map@[a]@[b]).0
                        == self.map@[a]@[b].0,
                forall|i: int|
                    0 <= i < q@.len() ==> (#[trigger] q@[i]).0 < self.dim.0 && q@[i].1
                        < self.dim.1,
                0 <= grid_fresh(map.map@, dim1) <= dim0 * dim1,
                pops + q@.len() + 2 * grid_fresh(map.map@, dim1) <= 2 * (cells as int) + 1,
            decreases 2 * grid_fresh(map.map@, dim1) + q@.len() + (if done {
                0int
            } else {
                1int
            }),
        {
            let cur = q.pop_front().unwrap();
            pops += 1;
            let curspot = map.map[cur.1][cur.0];
            let mut newst = curspot.1;
            newst.deactivate();
            let ghost pre = map.map@;
            map.set_status(cur, newst);
            proof {
                lemma_grid_fresh_update(
                    pre,
                    map.map@,
                    dim1,
                    cur.1 as int,
                    cur.0 as int,
                    (pre[cur.1 as int]@[cur.0 as int].0, newst),
                );
            }
            let up = map.go_up(&cur);
            if let Some(nxt) = up {
                let ghost pre = map.map@;
                map.set_status(nxt, Status::Down(true));
                proof {
                    lemma_grid_fresh_update(
                        pre,
                        map.map@,
                        dim1,
                        nxt.1 as int,
                        nxt.0 as int,
                        (pre[nxt.1 as int]@[nxt.0 as int].0, Status::Down(true)),
                    );
                }
                q.push_back(nxt);
                if nxt.0 == goal.0 && nxt.1 == goal.1 {
                    done = true;
                }
            }
            let down = map.go_down(&cur);
            if let Some(nxt) = down {
                let ghost pre = map.map@;
                map.set_status(nxt, Status::Up(true));
                proof {
                    lemma_grid_fresh_update(
                        pre,
                        map.map@,
                        dim1,
                        nxt.1 as int,
                        nxt.0 as int,
                        (pre[nxt.1 as int]@[nxt.0 as int].0, Status::Up(true)),
                    );
                }
                q.push_back(nxt);
                if nxt.0 == goal.0 && nxt.1 == goal.1 {
                    done = true;
                }
            }
            let left = map.go_left(&cur);
            if let Some(nxt) = left {
                let ghost pre = map.map@;
                map.set_status(nxt, Status::Right(true));
                proof {
                    lemma_grid_fresh_update(
                        pre,
                        map.map@,
                        dim1,
                        nxt.1 as int,
                        nxt.0 as int,
                        (pre[nxt.1 as int]@[nxt.0 as int].0, Status::Right(true)),
                    );
                }
                q.push_back(nxt);
                if nxt.0 == goal.0 && nxt.1 == goal.1 {
                    done = true;
                }
            }
            let right = map.go_right(&cur);
            if let Some(nxt) = right {
                let ghost pre = map.map@;
                map.set_status(nxt, Status::Left(true));
                proof {
                    lemma_grid_fresh_update(
                        pre,
                        map.map@,
                        dim1,
                        nxt.1 as int,
                        nxt.0 as int,
                        (pre[nxt.1 as int]@[nxt.0 as int].0, Status::Left(true)),
                    );
                }
                q.push_back(nxt);
                if nxt.0 == goal.0 && nxt.1 == goal.1 {
                    done = true;
                }
            }
            proof {
                lemma_grid_fresh_bounds(map.map@, dim1, dim0);
            }
        }
        // quiet whatever remains on the frontier
        while q.len() != 0
            invariant
                map.wf(),
                map.dim == self.dim,
                map.start == self.start,
                map.goal == self.goal,
                dim0 == self.dim.0 as int,
                dim1 == self.dim.1 as int,
                forall|a: int, b: int|
                    0 <= a < dim1 && 0 <= b < dim0 ==> (#[trigger] map.map@[a]@[b]).0
                        == self.map@[a]@[b].0,
                forall|i: int|
                    0 <= i < q@.len() ==> (#[trigger] q@[i]).0 < self.dim.0 && q@[i].1
                        < self.dim.1,
            decreases q@.len(),
        {
            let cur = q.pop_front().unwrap();
            let curspot = map.map[cur.1][cur.0];
            let mut newst = curspot.1;
            newst.deactivate();
            map.set_status(cur, newst);
        }
        if !done {
            return SearchReport { map, found: false, path: Vec::new(), dist: 0, cost: 0, pops };
        }
        let (found, path, cost) = Self::walk_back(&mut map, cells);
        let dist = path.len();
        SearchReport { map, found, path, dist, cost, pops }
    }

    /// Walk the direction arrows back from the goal, marking each walked
    /// cell as part of the path, until a cell without an arrow is reached.
    /// Success means the walk ended on the start cell; the walk is cut off,
    /// and failure reported, once it has visited more cells than the map
    /// holds, an arrow points off the map, or the walk steps onto water.
    fn walk_back(map: &mut TerrainMap, cells: usize) -> (r: (bool, Vec<Vec2>, usize))
        requires
            old(map).wf(),
            cells == (old(map).dim.0 as int) * (old(map).dim.1 as int),
            16 * ((old(map).dim.0 as int) * (old(map).dim.1 as int) + 1) <= usize::MAX,
        ensures
            final(map).wf(),
            final(map).dim == old(map).dim,
            final(map).start == old(map).start,
            final(map).goal == old(map).goal,
            forall|a: int, b: int|
                0 <= a < old(map).dim.1 && 0 <= b < old(map).dim.0 ==> (
                #[trigger] final(map).map@[a]@[b]).0 == old(map).map@[a]@[b].0,
            r.0 ==> {
                &&& r.1@.len() >= 1
                &&& r.1@.first() == old(map).goal
                &&& r.1@.last() == old(map).start
                &&& path_chain(r.1@)
                &&& forall|i: int|
                    0 <= i < r.1@.len() ==> (#[trigger] r.1@[i]).0 < old(map).dim.0 && r.1@[i].1
                        < old(map).dim.1 && old(map).map@[r.1@[i].1 as int]@[r.1@[i].0 as int].0
                        != Terrain::Water
                &&& r.2 == path_cost(final(map).map@, r.1@)
            },
            !r.0 ==> r.1@.len() == 0,
    {
        let ghost dim0 = map.dim.0 as int;
        let ghost dim1 = map.dim.1 as int;
        let ghost base = *map;
        let start = map.start;
        let goal = map.goal;
        let mut path: Vec<Vec2> = Vec::new();
        let mut cost: usize = 0;
        let mut cur = goal;
        let mut fuel: usize = cells + 1;
        let mut finished = false;
        let mut stranded = false;
        while fuel > 0 && !finished
            invariant
                map.wf(),
                map.dim == base.dim,
                map.start == base.start,
                map.goal == base.goal,
                start == base.start,
                goal == base.goal,
                cells == dim0 * dim1,
                dim0 == base.dim.0 as int,
                dim1 == base.dim.1 as int,
                16 * (dim0 * dim1 + 1) <= usize::MAX,
                forall|a: int, b: int|
                    0 <= a < dim1 && 0 <= b < dim0 ==> (#[trigger] map.map@[a]@[b]).0
                        == base.map@[a]@[b].0,
                cur.0 < base.dim.0 && cur.1 < base.dim.1,
                fuel <= cells + 1,
                path@.len() + fuel <= cells + 1,
                cost == path_cost(map.map@, path@),
                cost <= 10 * path@.len(),
                !finished ==> path_chain(path@.push(cur)),
                !finished ==> path@.push(cur).first() == goal,
                finished && !stranded ==> path@.len() >= 1 && path_chain(path@) && path@.first()
                    == goal,
                forall|i: int|
                    0 <= i < path@.len() ==> (#[trigger] path@[i]).0 < base.dim.0 && path@[i].1
                        < base.dim.1 && base.map@[path@[i].1 as int]@[path@[i].0 as int].0
                        != Terrain::Water,
            decreases fuel,
        {
            let ghost oldpath = path@;
            let ghost oldcur = cur;
            let terrain_here = map.map[cur.1][cur.0].0;
            if terrain_here == Terrain::Water {
                finished = true;
                stranded = true;
                fuel -= 1;
                continue;
            }
            path.push(cur);
            let ccost = cost_at(&map, cur);
            cost += ccost;
            let st = map.map[cur.1][cur.0].1;
            let ghost pre = map.map@;
            map.set_status(cur, Status::Path);
            proof {
                assert(path@.drop_last() =~= oldpath);
                assert(path@ == oldpath.push(oldcur));
                assert(cost == path_cost(pre, path@));
                lemma_path_cost_congruent(pre, map.map@, path@);
            }
            match st {
                Status::Up(_) => {
                    if cur.1 >= 1 {
                        cur = (cur.0, cur.1 - 1);
                        proof {
                            lemma_chain_push(path@, cur);
                        }
                    } else {
                        finished = true;
                        stranded = true;
                    }
                },
                Status::Down(_) => {
                    if cur.1 + 1 < map.dim.1 {
                        cur = (cur.0, cur.1 + 1);
                        proof {
                            lemma_chain_push(path@, cur);
                        }
                    } else {
                        finished = true;
                        stranded = true;
                    }
                },
                Status::Left(_) => {
                    if cur.0 >= 1 {
                        cur = (cur.0 - 1, cur.1);
                        proof {
                            lemma_chain_push(path@, cur);
                        }
                    } else {
                        finished = true;
                        stranded = true;
                    }
                },
                Status::Right(_) => {
                    if cur.0 + 1 < map.dim.0 {
                        cur = (cur.0 + 1, cur.1);
                        proof {
                            lemma_chain_push(path@, cur);
                        }
                    } else {
                        finished = true;
                        stranded = true;
                    }
                },
                _ => {
                    finished = true;
                },
            }
            fuel -= 1;
        }
        let mut found = finished && !stranded;
        if found {
            let lastp = path[path.len() - 1];
            if !(lastp.0 == start.0 && lastp.1 == start.1) {
                found = false;
            }
        }
        if !found {
            return (false, Vec::new(), 0);
        }
        (true, path, cost)
    }

    /// Sweep the map with a priority-ordered frontier: pop the entry the
    /// mode ranks highest, and for each untouched reachable neighbor record
    /// a running cost, mark the direction it was reached from, and put it on
    /// the frontier, until the goal is reached or the frontier runs dry;
    /// then walk the arrows back from the goal. In every mode the guarantees
    /// are those of the breadth-first sweep: on success the returned walk
    /// runs from the goal to the start one orthogonal step at a time, with
    /// its length and summed terrain cost reported exactly. The frontier
    /// order itself, and so which path is found, is heuristic.
    #[verifier::rlimit(60)]
    #[verifier::spinoff_prover]
    fn best_first(&self, mode: BestFirstMode) -> (r: SearchReport)
        requires
            self.wf(),
            forall|a: int, b: int|
                0 <= a < self.dim.1 && 0 <= b < self.dim.0 ==> (#[trigger] self.map@[a]@[b]).1
                    == Status::Unvisited,
            16 * ((self.dim.0 as int) * (self.dim.1 as int) + 1) <= usize::MAX,
            mode == BestFirstMode::AStarEuclid ==> (self.dim.0 as int) * (self.dim.0 as int) + (
            self.dim.1 as int) * (self.dim.1 as int) <= usize::MAX,
        ensures
            search_report_ok(*self, r),
    {
        let ghost dim0 = self.dim.0 as int;
        let ghost dim1 = self.dim.1 as int;
        let mut map = self.copy_map();
        let mut costs: Vec<Vec<usize>> = Vec::new();
        let mut i: usize = 0;
        while i < self.dim.1
            invariant
                i <= self.dim.1,
                costs@.len() == i,
                forall|a: int| 0 <= a < i ==> (#[trigger] costs@[a])@.len() == self.dim.0,
            decreases self.dim.1 - i,
        {
            let mut row: Vec<usize> = Vec::new();
            let mut j: usize = 0;
            while j < self.dim.0
                invariant
                    j <= self.dim.0,
                    row@.len() == j,
                decreases self.dim.0 - j,
            {
                row.push(usize::MAX);
                j += 1;
            }
            costs.push(row);
            i += 1;
        }
        map.costs = costs;
        map.display_costs = true;
        proof {
            lemma_grid_fresh_bounds(map.map@, dim1, dim0);
        }
        let cells: usize = self.dim.0 * self.dim.1;
        let start = map.start;
        let goal = map.goal;
        let start_cost = cost_at(&map, start);
        let ghost pre = map.map@;
        map.set_status(start, Status::Path);
        proof {
            lemma_grid_fresh_update(
                pre,
                map.map@,
                dim1,
                start.1 as int,
                start.0 as int,
                (pre[start.1 as int]@[start.0 as int].0, Status::Path),
            );
            lemma_grid_fresh_bounds(map.map@, dim1, dim0);
        }
        map.set_cost(start, start_cost);
        let mut q = crate::pqueue::pq_new();
        crate::pqueue::pq_push(&mut q, (start.0, start.1, start_cost), 0);
        let mut pops: usize = 0;
        let mut done = false;
        while crate::pqueue::pq_len(&q) != 0 && !done
            invariant
                self.wf(),
                map.wf(),
                costs_shaped(map),
                map.dim == self.dim,
                map.start == self.start,
                map.goal == self.goal,
                start == self.start,
                goal == self.goal,
                cells == dim0 * dim1,
                dim0 == self.dim.0 as int,
                dim1 == self.dim.1 as int,
                16 * (dim0 * dim1 + 1) <= usize::MAX,
                mode == BestFirstMode::AStarEuclid ==> dim0 * dim0 + dim1 * dim1 <= usize::MAX,
                forall|a: int, b: int|
                    0 <= a < dim1 && 0 <= b < dim0 ==> (#[trigger] map.map@[a]@[b]).0
                        == self.map@[a]@[b].0,
                crate::pqueue::pq_contents(q).dom().finite(),
                forall|k: crate::pqueue::QueueItem|
                    #[trigger] crate::pqueue::pq_contents(q).dom().contains(k) ==> k.0 < self.dim.0
                        && k.1 < self.dim.1 && k.2 as int <= 10 * (cells - grid_fresh(
                        map.map@,
                        dim1,
                    )),
                0 <= grid_fresh(map.map@, dim1) <= dim0 * dim1,
            decreases 2 * grid_fresh(map.map@, dim1) + crate::pqueue::pq_contents(q).dom().len()
                + (if done {
                0int
            } else {
                1int
            }),
        {
            let popped = crate::pqueue::pq_pop(&mut q);
            let (item, _prio) = match popped {
                Some(ip) => ip,
                None => {
                    proof {
                        assert(false);
                    }
                    ((0, 0, 0), 0)
                },
            };
            pops = if pops < usize::MAX {
                pops + 1
            } else {
                pops
            };
            let cur = (item.0, item.1);
            let curcost = item.2;
            let curspot = map.map[cur.1][cur.0];
            let mut newst = curspot.1;
            newst.deactivate();
            let ghost pre = map.map@;
            map.set_status(cur, newst);
            proof {
                lemma_grid_fresh_update(
                    pre,
                    map.map@,
                    dim1,
                    cur.1 as int,
                    cur.0 as int,
                    (pre[cur.1 as int]@[cur.0 as int].0, newst),
                );
            }
            let up = map.go_up(&cur);
            if let Some(nxt) = up {
                done = self.relax(mode, &mut map, &mut q, nxt, curcost, Status::Down(true), goal)
                    || done;
            }
            let down = map.go_down(&cur);
            if let Some(nxt) = down {
                done = self.relax(mode, &mut map, &mut q, nxt, curcost, Status::Up(true), goal)
                    || done;
            }
            let left = map.go_left(&cur);
            if let Some(nxt) = left {
                done = self.relax(mode, &mut map, &mut q, nxt, curcost, Status::Right(true), goal)
                    || done;
            }
            let right = map.go_right(&cur);
            if let Some(nxt) = right {
                done = self.relax(mode, &mut map, &mut q, nxt, curcost, Status::Left(true), goal)
                    || done;
            }
            proof {
                lemma_grid_fresh_bounds(map.map@, dim1, dim0);
            }
        }
        if !done {
            return SearchReport { map, found: false, path: Vec::new(), dist: 0, cost: 0, pops };
        }
        let (found, path, cost) = Self::walk_back(&mut map, cells);
        let dist = path.len();
        SearchReport { map, found, path, dist, cost, pops }
    }

    /// Record one newly reached cell: remember its running cost, mark where
    /// it was reached from, and put it on the frontier, unless the mode
    /// keeps the cheaper cost already recorded for it. Reports whether the
    /// cell is the goal.
    fn relax(
        &self,
        mode: BestFirstMode,
        map: &mut TerrainMap,
        q: &mut crate::pqueue::VisitQueue,
        nxt: Vec2,
        curcost: usize,
        arrow: Status,
        goal: Vec2,
    ) -> (hit: bool)
        requires
            self.wf(),
            old(map).wf(),
            costs_shaped(*old(map)),
            old(map).dim == self.dim,
            nxt.0 < self.dim.0,
            nxt.1 < self.dim.1,
            old(map).map@[nxt.1 as int]@[nxt.0 as int].1 == Status::Unvisited,
            arrow != Status::Unvisited,
            curcost as int <= 10 * ((self.dim.0 as int) * (self.dim.1 as int) - grid_fresh(
                old(map).map@,
                self.dim.1 as int,
            )),
            0 <= grid_fresh(old(map).map@, self.dim.1 as int),
            crate::pqueue::pq_contents(*old(q)).dom().finite(),
            forall|k: crate::pqueue::QueueItem|
                #[trigger] crate::pqueue::pq_contents(*old(q)).dom().contains(k) ==> k.0
                    < self.dim.0 && k.1 < self.dim.1 && k.2 as int <= 10 * ((self.dim.0 as int) * (
                self.dim.1 as int) - grid_fresh(old(map).map@, self.dim.1 as int)),
            16 * ((self.dim.0 as int) * (self.dim.1 as int) + 1) <= usize::MAX,
            mode == BestFirstMode::AStarEuclid ==> (self.dim.0 as int) * (self.dim.0 as int) + (
            self.dim.1 as int) * (self.dim.1 as int) <= usize::MAX,
            goal == self.goal,
        ensures
            final(map).wf(),
            costs_shaped(*final(map)),
            final(map).dim == old(map).dim,
            final(map).start == old(map).start,
            final(map).goal == old(map).goal,
            final(map).map@.len() == old(map).map@.len(),
            forall|a: int, b: int|
                0 <= a < self.dim.1 && 0 <= b < self.dim.0 ==> (#[trigger] final(map).map@[a]@[b]).0
                    == old(map).map@[a]@[b].0,
            grid_fresh(old(map).map@, self.dim.1 as int) - 1 <= grid_fresh(
                final(map).map@,
                self.dim.1 as int,
            ) <= grid_fresh(old(map).map@, self.dim.1 as int),
            0 <= grid_fresh(final(map).map@, self.dim.1 as int),
            crate::pqueue::pq_contents(*final(q)).dom().finite(),
            forall|k: crate::pqueue::QueueItem|
                #[trigger] crate::pqueue::pq_contents(*final(q)).dom().contains(k) ==> k.0
                    < self.dim.0 && k.1 < self.dim.1 && k.2 as int <= 10 * ((self.dim.0 as int) * (
                self.dim.1 as int) - grid_fresh(final(map).map@, self.dim.1 as int)),
            2 * grid_fresh(final(map).map@, self.dim.1 as int) + crate::pqueue::pq_contents(
                *final(q),
            ).dom().len() <= 2 * grid_fresh(old(map).map@, self.dim.1 as int)
                + crate::pqueue::pq_contents(*old(q)).dom().len(),
            hit == (nxt.0 == goal.0 && nxt.1 == goal.1),
    {
        let ghost dim0 = self.dim.0 as int;
        let ghost dim1 = self.dim.1 as int;
        let c = cost_at(map, nxt);
        let maybe_cost = curcost + c;
        let keep = match mode {
            BestFirstMode::Greedy => false,
            _ => maybe_cost >= map.get_cost(nxt),
        };
        if !keep {
            map.set_cost(nxt, maybe_cost);
            let ghost pre = map.map@;
            map.set_status(nxt, arrow);
            proof {
                lemma_grid_fresh_update(
                    pre,
                    map.map@,
                    dim1,
                    nxt.1 as int,
                    nxt.0 as int,
                    (pre[nxt.1 as int]@[nxt.0 as int].0, arrow),
                );
            }
            let prio = self.frontier_priority(mode, nxt, maybe_cost);
            crate::pqueue::pq_push(q, (nxt.0, nxt.1, maybe_cost), prio);
        }
        proof {
            lemma_grid_fresh_bounds(map.map@, self.dim.1 as int, self.dim.0 as int);
        }
        nxt.0 == goal.0 && nxt.1 == goal.1
    }

    /// Search for a path processing the cheapest frontier cell first.
    pub fn lowest_cost_path(&self) -> (r: SearchReport)
        requires
            self.wf(),
            forall|a: int, b: int|
                0 <= a < self.dim.1 && 0 <= b < self.dim.0 ==> (#[trigger] self.map@[a]@[b]).1
                    == Status::Unvisited,
            16 * ((self.dim.0 as int) * (self.dim.1 as int) + 1) <= usize::MAX,
        ensures
            search_report_ok(*self, r),
    {
        self.best_first(BestFirstMode::LowestCost)
    }

    /// Search for a path processing the frontier cell nearest the goal, by
    /// taxicab distance, first.
    pub fn greedy_best_first(&self) -> (r: SearchReport)
        requires
            self.wf(),
            forall|a: int, b: int|
                0 <= a < self.dim.1 && 0 <= b < self.dim.0 ==> (#[trigger] self.map@[a]@[b]).1
                    == Status::Unvisited,
            16 * ((self.dim.0 as int) * (self.dim.1 as int) + 1) <= usize::MAX,
        ensures
            search_report_ok(*self, r),
    {
        self.best_first(BestFirstMode::Greedy)
    }

    /// Search for a path ordering the frontier by accumulated cost plus the
    /// taxicab distance to the goal.
    pub fn a_star_1(&self) -> (r: SearchReport)
        requires
            self.wf(),
            forall|a: int, b: int|
                0 <= a < self.dim.1 && 0 <= b < self.dim.0 ==> (#[trigger] self.map@[a]@[b]).1
                    == Status::Unvisited,
            16 * ((self.dim.0 as int) * (self.dim.1 as int) + 1) <= usize::MAX,
        ensures
            search_report_ok(*self, r),
    {
        self.best_first(BestFirstMode::AStarTaxi)
    }

    /// Search for a path ordering the frontier by accumulated cost plus the
    /// rounded euclidean distance to the goal.
    pub fn a_star_2(&self) -> (r: SearchReport)
        requires
            self.wf(),
            forall|a: int, b: int|
                0 <= a < self.dim.1 && 0 <= b < self.dim.0 ==> (#[trigger] self.map@[a]@[b]).1
                    == Status::Unvisited,
            16 * ((self.dim.0 as int) * (self.dim.1 as int) + 1) <= usize::MAX,
            (self.dim.0 as int) * (self.dim.0 as int) + (self.dim.1 as int) * (self.dim.1 as int)
                <= usize::MAX,
        ensures
            search_report_ok(*self, r),
    {
        self.best_first(BestFirstMode::AStarEuclid)
    }

    /// Overwrite one recorded running cost.
    fn set_cost(&mut self, loc: Vec2, value: usize)
        requires
            old(self).wf(),
            costs_shaped(*old(self)),
            loc.0 < old(self).dim.0,
            loc.1 < old(self).dim.1,
        ensures
            final(self).wf(),
            costs_shaped(*final(self)),
            final(self).dim == old(self).dim,
            final(self).start == old(self).start,
            final(self).goal == old(self).goal,
            final(self).map == old(self).map,
            final(self).display_costs == old(self).display_costs,
    {
        let row = &mut self.costs[loc.1];
        row.set(loc.0, value);
    }

    /// Read one recorded running cost.
    fn get_cost(&self, loc: Vec2) -> (r: usize)
        requires
            self.wf(),
            costs_shaped(*self),
            loc.0 < self.dim.0,
            loc.1 < self.dim.1,
        ensures
            r == self.costs@[loc.1 as int]@[loc.0 as int],
    {
        self.costs[loc.1][loc.0]
    }

    /// The frontier priority of a newly reached cell: higher for cells that
    /// the mode prefers to process earlier. Any ordering is sound; the
    /// search's guarantees do not depend on it.
    fn frontier_priority(&self, mode: BestFirstMode, nxt: Vec2, maybe_cost: usize) -> (r: usize)
        requires
            self.wf(),
            nxt.0 < self.dim.0,
            nxt.1 < self.dim.1,
            maybe_cost as int <= 10 * ((self.dim.0 as int) * (self.dim.1 as int)) + 10,
            16 * ((self.dim.0 as int) * (self.dim.1 as int) + 1) <= usize::MAX,
            mode == BestFirstMode::AStarEuclid ==> (self.dim.0 as int) * (self.dim.0 as int) + (
            self.dim.1 as int) * (self.dim.1 as int) <= usize::MAX,
    {
        let goal = self.goal;
        let ghost dim0 = self.dim.0 as int;
        let ghost dim1 = self.dim.1 as int;
        proof {
            assert(dim0 <= dim0 * dim1 && dim1 <= dim0 * dim1) by (nonlinear_arith)
                requires
                    dim0 >= 1,
                    dim1 >= 1,
            ;
        }
        match mode {
            BestFirstMode::LowestCost => usize::MAX - maybe_cost,
            BestFirstMode::Greedy => {
                let d = dist(nxt, goal, DistMode::TaxiCab);
                usize::MAX - d
            },
            BestFirstMode::AStarTaxi => {
                let d = dist(nxt, goal, DistMode::TaxiCab);
                usize::MAX - (maybe_cost + d)
            },
            BestFirstMode::AStarEuclid => {
                proof {
                    let adx = crate::terrain_map::abs_diff_spec(nxt.0 as int, goal.0 as int);
                    let ady = crate::terrain_map::abs_diff_spec(nxt.1 as int, goal.1 as int);
                    assert(adx * adx <= dim0 * dim0 && ady * ady <= dim1 * dim1)
                        by (nonlinear_arith)
                        requires
                            0 <= adx <= dim0,
                            0 <= ady <= dim1,
                    ;
                }
                let d = dist(nxt, goal, DistMode::Euclidean);
                proof {
                    let adx = crate::terrain_map::abs_diff_spec(nxt.0 as int, goal.0 as int);
                    let ady = crate::terrain_map::abs_diff_spec(nxt.1 as int, goal.1 as int);
                    assert(d <= adx + ady) by (nonlinear_arith)
                        requires
                            d as int * d as int <= adx * adx + ady * ady,
                            d >= 0,
                            adx >= 0,
                            ady >= 0,
                    ;
                }
                usize::MAX - (maybe_cost + d)
            },
        }
    }

    /// An explicit cell-by-cell copy of the map.
    fn copy_map(&self) -> (r: TerrainMap)
        requires
            self.wf(),
        ensures
            r.wf(),
            r.dim == self.dim,
            r.start == self.start,
            r.goal == self.goal,
            r.costs@.len() == 0,
            r.display_costs == self.display_costs,
            forall|a: int| 0 <= a < self.dim.1 ==> (#[trigger] r.map@[a])@ =~= self.map@[a]@,
    {
        let rows: usize = self.dim.1;
        let mut grid: Vec<Vec<Spot>> = Vec::new();
        let mut i: usize = 0;
        while i < rows
            invariant
                self.wf(),
                rows == self.dim.1,
                i <= rows,
                grid@.len() == i,
                forall|a: int| 0 <= a < i ==> (#[trigger] grid@[a])@ =~= self.map@[a]@,
            decreases rows - i,
        {
            let src = &self.map[i];
            let mut row: Vec<Spot> = Vec::new();
            let mut j: usize = 0;
            while j < src.len()
                invariant
                    j <= src@.len(),
                    row@.len() == j,
                    forall|b: int| 0 <= b < j ==> row@[b] == src@[b],
                decreases src@.len() - j,
            {
                row.push(src[j]);
                j += 1;
            }
            proof {
                assert(row@ =~= src@);
            }
            grid.push(row);
            i += 1;
        }
        TerrainMap {
            map: grid,
            costs: Vec::new(),
            display_costs: self.display_costs,
            dim: self.dim,
            start: self.start,
            goal: self.goal,
        }
    }
}

} // verus!
