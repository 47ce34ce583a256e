//! Colorings and conflict accounting: how many edges join two nodes of the
//! same color, and when a coloring solves the instance.

use vstd::prelude::*;
use std::collections::HashMap;
use crate::color_graph::{adjacent, adj_wf, entries_upto, ColorGraph};
use crate::colors::{budget_size, color_in_budget, Choices, Color, NumColors};

verus! {

broadcast use vstd::std_specs::hash::group_hash_axioms;

/// A partial assignment of colors to nodes. A node absent from the map is
/// unassigned; no sentinel color is ever stored.
pub type GraphColoring = HashMap<usize, Color>;

/// How many entries of `nbrs` are assigned exactly the color `c` by `m`.
pub open spec fn count_same(m: Map<usize, Color>, c: Color, nbrs: Seq<usize>) -> int
    decreases nbrs.len(),
{
    if nbrs.len() == 0 {
        0
    } else {
        count_same(m, c, nbrs.drop_last()) + if m.contains_key(nbrs.last()) && m[nbrs.last()]
            == c {
            1int
        } else {
            0int
        }
    }
}

/// The conflicts of one node: how many of its neighbors carry its own color.
/// An unassigned node has no color and so no conflicts.
pub open spec fn conflicts_at_spec(adj: Seq<Seq<usize>>, m: Map<usize, Color>, u: int) -> int {
    if 0 <= u < adj.len() && m.contains_key(u as usize) {
        count_same(m, m[u as usize], adj[u])
    } else {
        0
    }
}

/// The per-node conflict counts of the first `n` nodes, summed.
pub open spec fn conflict_sum(adj: Seq<Seq<usize>>, m: Map<usize, Color>, n: int) -> int
    decreases n,
{
    if n <= 0 {
        0
    } else {
        conflict_sum(adj, m, n - 1) + conflicts_at_spec(adj, m, n - 1)
    }
}

/// The number of violated edges: every violated edge is seen from both of
/// its endpoints, so the summed per-node counts are halved.
pub open spec fn total_conflicts_spec(adj: Seq<Seq<usize>>, m: Map<usize, Color>) -> int {
    conflict_sum(adj, m, adj.len() as int) / 2
}

/// Every node of the graph is assigned a color.
pub open spec fn full_coloring(adj: Seq<Seq<usize>>, m: Map<usize, Color>) -> bool {
    forall|u: usize| u < adj.len() ==> m.contains_key(u)
}

/// The coloring names only nodes of the graph and stays within the budget.
pub open spec fn coloring_within(adj_len: int, m: Map<usize, Color>, num_colors: NumColors) -> bool {
    forall|u: usize|
        #[trigger] m.contains_key(u) ==> u < adj_len && color_in_budget(m[u], num_colors)
}

/// A coloring solves the instance when every node is assigned and no edge is
/// violated.
pub open spec fn is_complete_spec(adj: Seq<Seq<usize>>, m: Map<usize, Color>) -> bool {
    full_coloring(adj, m) && total_conflicts_spec(adj, m) == 0
}

/// Some neighbor of node `u` is assigned the color `c`.
pub open spec fn neighbor_has_color(
    adj: Seq<Seq<usize>>,
    m: Map<usize, Color>,
    u: int,
    c: Color,
) -> bool {
    0 <= u < adj.len() && exists|k: int|
        0 <= k < adj[u].len() && m.contains_key(#[trigger] adj[u][k]) && m[adj[u][k]] == c
}

/// A node with fewer neighbors than the budget has colors keeps some budget
/// color that no neighbor carries: each carried budget color needs its own
/// neighbor list entry.
pub proof fn lemma_budget_color_free(
    adj: Seq<Seq<usize>>,
    m: Map<usize, Color>,
    u: int,
    num_colors: NumColors,
)
    requires
        0 <= u < adj.len(),
        adj[u].len() < budget_size(num_colors),
    ensures
        exists|c: Color| color_in_budget(c, num_colors) && !neighbor_has_color(adj, m, u, c),
{
    if neighbor_has_color(adj, m, u, Color::Red) && neighbor_has_color(adj, m, u, Color::Green) && (
    budget_size(num_colors) < 3 || neighbor_has_color(adj, m, u, Color::Blue)) && (budget_size(
        num_colors,
    ) < 4 || neighbor_has_color(adj, m, u, Color::Yellow)) {
        let kr = choose|k: int|
            0 <= k < adj[u].len() && m.contains_key(#[trigger] adj[u][k]) && m[adj[u][k]]
                == Color::Red;
        let kg = choose|k: int|
            0 <= k < adj[u].len() && m.contains_key(#[trigger] adj[u][k]) && m[adj[u][k]]
                == Color::Green;
        assert(kr != kg);
        match num_colors {
            NumColors::Two => {
                assert(false);
            },
            NumColors::Three => {
                let kb = choose|k: int|
                    0 <= k < adj[u].len() && m.contains_key(#[trigger] adj[u][k]) && m[adj[u][k]]
                        == Color::Blue;
                assert(kb != kr && kb != kg);
                assert(false);
            },
            NumColors::Four => {
                let kb = choose|k: int|
                    0 <= k < adj[u].len() && m.contains_key(#[trigger] adj[u][k]) && m[adj[u][k]]
                        == Color::Blue;
                let ky = choose|k: int|
                    0 <= k < adj[u].len() && m.contains_key(#[trigger] adj[u][k]) && m[adj[u][k]]
                        == Color::Yellow;
                assert(kb != kr && kb != kg && ky != kr && ky != kg && ky != kb);
                assert(false);
            },
        }
    } else {
        if !neighbor_has_color(adj, m, u, Color::Red) {
            assert(color_in_budget(Color::Red, num_colors) && !neighbor_has_color(
                adj,
                m,
                u,
                Color::Red,
            ));
        } else if !neighbor_has_color(adj, m, u, Color::Green) {
            assert(color_in_budget(Color::Green, num_colors) && !neighbor_has_color(
                adj,
                m,
                u,
                Color::Green,
            ));
        } else if budget_size(num_colors) >= 3 && !neighbor_has_color(adj, m, u, Color::Blue) {
            assert(color_in_budget(Color::Blue, num_colors) && !neighbor_has_color(
                adj,
                m,
                u,
                Color::Blue,
            ));
        } else {
            assert(budget_size(num_colors) >= 4);
            assert(color_in_budget(Color::Yellow, num_colors) && !neighbor_has_color(
                adj,
                m,
                u,
                Color::Yellow,
            ));
        }
    }
}

/// A per-node count never exceeds the neighbor list's length and is never
/// negative.
pub proof fn lemma_count_same_bounds(m: Map<usize, Color>, c: Color, nbrs: Seq<usize>)
    ensures
        0 <= count_same(m, c, nbrs) <= nbrs.len(),
    decreases nbrs.len(),
{
    if nbrs.len() > 0 {
        lemma_count_same_bounds(m, c, nbrs.drop_last());
    }
}

/// A summed conflict count is never negative.
pub proof fn lemma_conflict_sum_nonneg(adj: Seq<Seq<usize>>, m: Map<usize, Color>, n: int)
    ensures
        conflict_sum(adj, m, n) >= 0,
    decreases n,
{
    if n > 0 {
        lemma_conflict_sum_nonneg(adj, m, n - 1);
        if 0 <= n - 1 < adj.len() && m.contains_key((n - 1) as usize) {
            lemma_count_same_bounds(m, m[(n - 1) as usize], adj[n - 1]);
        }
    }
}

/// A neighbor list none of whose entries carries the color counts zero.
pub proof fn lemma_count_same_zero(m: Map<usize, Color>, c: Color, nbrs: Seq<usize>)
    requires
        forall|t: int|
            0 <= t < nbrs.len() ==> !(m.contains_key(#[trigger] nbrs[t]) && m[nbrs[t]] == c),
    ensures
        count_same(m, c, nbrs) == 0,
    decreases nbrs.len(),
{
    if nbrs.len() > 0 {
        assert(nbrs[nbrs.len() - 1] == nbrs.last());
        lemma_count_same_zero(m, c, nbrs.drop_last());
    }
}

/// When no node has conflicts, the summed count is zero.
pub proof fn lemma_conflict_sum_zero(adj: Seq<Seq<usize>>, m: Map<usize, Color>, n: int)
    requires
        forall|u: int| 0 <= u < n ==> conflicts_at_spec(adj, m, u) == 0,
    ensures
        conflict_sum(adj, m, n) == 0,
    decreases n,
{
    if n > 0 {
        lemma_conflict_sum_zero(adj, m, n - 1);
    }
}

/// A neighbor list that holds a node of the same color makes the count
/// positive.
pub proof fn lemma_count_same_contains(m: Map<usize, Color>, c: Color, nbrs: Seq<usize>, v: usize)
    requires
        nbrs.contains(v),
        m.contains_key(v),
        m[v] == c,
    ensures
        count_same(m, c, nbrs) >= 1,
    decreases nbrs.len(),
{
    lemma_count_same_bounds(m, c, nbrs.drop_last());
    if nbrs.last() != v {
        let k = choose|k: int| 0 <= k < nbrs.len() && nbrs[k] == v;
        assert(nbrs.drop_last()[k] == v);
        lemma_count_same_contains(m, c, nbrs.drop_last(), v);
    }
}

/// The summed count is at least the contribution of any two distinct nodes.
pub proof fn lemma_conflict_sum_two_terms(
    adj: Seq<Seq<usize>>,
    m: Map<usize, Color>,
    n: int,
    u: int,
    v: int,
)
    requires
        0 <= u < v < n,
    ensures
        conflict_sum(adj, m, n) >= conflicts_at_spec(adj, m, u) + conflicts_at_spec(adj, m, v),
    decreases n,
{
    lemma_conflict_sum_nonneg(adj, m, v);
    if v < n - 1 {
        lemma_conflict_sum_two_terms(adj, m, n - 1, u, v);
        if 0 <= n - 1 < adj.len() && m.contains_key((n - 1) as usize) {
            lemma_count_same_bounds(m, m[(n - 1) as usize], adj[n - 1]);
        }
    } else {
        lemma_conflict_sum_one_term(adj, m, v, u);
    }
}

/// The summed count is at least the contribution of any single node.
pub proof fn lemma_conflict_sum_one_term(
    adj: Seq<Seq<usize>>,
    m: Map<usize, Color>,
    n: int,
    u: int,
)
    requires
        0 <= u < n,
    ensures
        conflict_sum(adj, m, n) >= conflicts_at_spec(adj, m, u),
    decreases n,
{
    if 0 <= n - 1 < adj.len() && m.contains_key((n - 1) as usize) {
        lemma_count_same_bounds(m, m[(n - 1) as usize], adj[n - 1]);
    }
    if u < n - 1 {
        lemma_conflict_sum_one_term(adj, m, n - 1, u);
    } else {
        lemma_conflict_sum_nonneg(adj, m, n - 1);
    }
}

/// No edge of a complete coloring joins two nodes of the same color: in any
/// coloring reported complete, the two ends of every edge differ.
pub proof fn lemma_complete_no_conflicting_edge(
    adj: Seq<Seq<usize>>,
    m: Map<usize, Color>,
    u: usize,
    v: usize,
)
    requires
        adj_wf(adj),
        is_complete_spec(adj, m),
        adjacent(adj, u as int, v as int),
    ensures
        m.contains_key(u),
        m.contains_key(v),
        m[u] != m[v],
{
    if m[u] == m[v] {
        assert(adjacent(adj, v as int, u as int));
        assert(u != v && u < adj.len() && v < adj.len());
        lemma_count_same_contains(m, m[u], adj[u as int], v);
        lemma_count_same_contains(m, m[v], adj[v as int], u);
        assert(conflicts_at_spec(adj, m, u as int) >= 1);
        assert(conflicts_at_spec(adj, m, v as int) >= 1);
        if u < v {
            lemma_conflict_sum_two_terms(adj, m, adj.len() as int, u as int, v as int);
        } else {
            lemma_conflict_sum_two_terms(adj, m, adj.len() as int, v as int, u as int);
        }
    }
}

/// The summed conflicts of the first `n` nodes never exceed their summed
/// neighbor list lengths.
pub proof fn lemma_conflict_sum_le_entries(adj: Seq<Seq<usize>>, m: Map<usize, Color>, n: int)
    requires
        n <= adj.len(),
    ensures
        conflict_sum(adj, m, n) <= entries_upto(adj, n),
    decreases n,
{
    if n > 0 {
        lemma_conflict_sum_le_entries(adj, m, n - 1);
        if m.contains_key((n - 1) as usize) {
            lemma_count_same_bounds(m, m[(n - 1) as usize], adj[n - 1]);
        }
    }
}

/// Summed list lengths only grow with the number of nodes taken.
pub proof fn lemma_entries_upto_mono(adj: Seq<Seq<usize>>, a: int, b: int)
    requires
        a <= b,
    ensures
        entries_upto(adj, a) <= entries_upto(adj, b),
    decreases b - a,
{
    if a < b {
        lemma_entries_upto_mono(adj, a, b - 1);
    }
}

impl ColorGraph {
    /// Count the conflicts of one node: its neighbors assigned its own
    /// color. An unassigned node has none.
    pub fn count_confl_idx(&self, idx: usize, vals: &GraphColoring) -> (r: usize)
        requires
            idx < self.adj().len(),
        ensures
            r == conflicts_at_spec(self.adj(), vals@, idx as int),
    {
        let own = match vals.get(&idx) {
            Some(c) => *c,
            None => {
                return 0;
            },
        };
        let nbrs = self.neighbors(idx);
        let ghost gnbrs = self.adj()[idx as int];
        let mut cnt: usize = 0;
        let mut k: usize = 0;
        proof {
            lemma_count_same_bounds(vals@, own, gnbrs);
        }
        while k < nbrs.len()
            invariant
                k <= nbrs@.len(),
                nbrs@ == gnbrs,
                cnt == count_same(vals@, own, gnbrs.take(k as int)),
                cnt <= k,
            decreases nbrs@.len() - k,
        {
            let nb = nbrs[k];
            let mut hit = false;
            match vals.get(&nb) {
                Some(c) => {
                    if *c == own {
                        hit = true;
                    }
                },
                None => {},
            }
            proof {
                assert(gnbrs.take(k + 1).drop_last() =~= gnbrs.take(k as int));
                assert(gnbrs.take(k + 1).last() == gnbrs[k as int]);
            }
            if hit {
                cnt += 1;
            }
            k += 1;
        }
        proof {
            assert(gnbrs.take(k as int) =~= gnbrs);
        }
        cnt
    }

    /// Count all violated edges of the graph under a coloring. Every violated
    /// edge is counted from both of its endpoints, then the sum is halved.
    pub fn count_confl(&self, vals: &GraphColoring) -> (r: usize)
        requires
            self.wf(),
        ensures
            r == total_conflicts_spec(self.adj(), vals@),
    {
        let n = self.node_count();
        let mut sum: usize = 0;
        let mut u: usize = 0;
        while u < n
            invariant
                self.wf(),
                n == self.adj().len(),
                u <= n,
                sum == conflict_sum(self.adj(), vals@, u as int),
            decreases n - u,
        {
            proof {
                lemma_conflict_sum_le_entries(self.adj(), vals@, u + 1);
                lemma_entries_upto_mono(self.adj(), u + 1, n as int);
                lemma_conflict_sum_nonneg(self.adj(), vals@, u as int);
            }
            let c = self.count_confl_idx(u, vals);
            sum += c;
            u += 1;
        }
        sum / 2
    }

    /// Recompute the choice set of one node: start from the budget's full
    /// set and strike out the color of every assigned neighbor. A color is
    /// legal in the result exactly when the budget allows it and no neighbor
    /// carries it.
    pub fn choices_at(&self, idx: usize, vals: &GraphColoring, num_colors: NumColors) -> (r:
        Choices)
        requires
            self.wf(),
            idx < self.adj().len(),
        ensures
            forall|c: Color|
                r.legal(c) <==> (color_in_budget(c, num_colors) && !neighbor_has_color(
                    self.adj(),
                    vals@,
                    idx as int,
                    c,
                )),
    {
        let mut choices = Choices::new(num_colors);
        let nbrs = self.neighbors(idx);
        let ghost gnbrs = self.adj()[idx as int];
        let mut k: usize = 0;
        while k < nbrs.len()
            invariant
                k <= nbrs@.len(),
                nbrs@ == gnbrs,
                forall|c: Color|
                    choices.legal(c) <==> (color_in_budget(c, num_colors) && !(exists|t: int|
                        0 <= t < k && vals@.contains_key(#[trigger] gnbrs[t]) && vals@[gnbrs[t]]
                            == c)),
            decreases nbrs@.len() - k,
        {
            let ghost pre = choices;
            let nb = nbrs[k];
            let got: Option<Color> = match vals.get(&nb) {
                Some(c) => Some(*c),
                None => None,
            };
            if let Some(cc) = got {
                choices.remove(cc);
            }
            proof {
                assert forall|c: Color|
                    choices.legal(c) <==> (color_in_budget(c, num_colors) && !(exists|t: int|
                        0 <= t < k + 1 && vals@.contains_key(#[trigger] gnbrs[t])
                            && vals@[gnbrs[t]] == c)) by {
                    let had = exists|t: int|
                        0 <= t < k && vals@.contains_key(#[trigger] gnbrs[t]) && vals@[gnbrs[t]]
                            == c;
                    let hasnew = vals@.contains_key(gnbrs[k as int]) && vals@[gnbrs[k as int]]
                        == c;
                    assert((exists|t: int|
                        0 <= t < k + 1 && vals@.contains_key(#[trigger] gnbrs[t])
                            && vals@[gnbrs[t]] == c) <==> (had || hasnew)) by {
                        if had {
                            let t = choose|t: int|
                                0 <= t < k && vals@.contains_key(#[trigger] gnbrs[t])
                                    && vals@[gnbrs[t]] == c;
                            assert(0 <= t < k + 1 && vals@.contains_key(gnbrs[t])
                                && vals@[gnbrs[t]] == c);
                        }
                        if hasnew {
                            assert(0 <= k < k + 1 && vals@.contains_key(gnbrs[k as int])
                                && vals@[gnbrs[k as int]] == c);
                        }
                    }
                    match got {
                        Some(cc) => {
                            assert(choices == pre.remove_spec(cc));
                            assert(choices.legal(c) == (pre.legal(c) && c != cc));
                            assert(hasnew <==> c == cc);
                        },
                        None => {
                            assert(!vals@.contains_key(gnbrs[k as int]));
                        },
                    }
                }
            }
            k += 1;
        }
        choices
    }

    /// Whether the coloring solves the instance: every node of the graph is
    /// assigned a color and no edge joins two nodes of the same color.
    pub fn is_complete(&self, vals: &GraphColoring) -> (r: bool)
        requires
            self.wf(),
        ensures
            r == is_complete_spec(self.adj(), vals@),
    {
        let n = self.node_count();
        let mut u: usize = 0;
        while u < n
            invariant
                self.wf(),
                n == self.adj().len(),
                u <= n,
                forall|w: usize| w < u ==> vals@.contains_key(w),
            decreases n - u,
        {
            if !vals.contains_key(&u) {
                return false;
            }
            u += 1;
        }
        self.count_confl(vals) == 0
    }
}

} // verus!
