//! The min-conflicts local search: seed a full coloring, then repeatedly
//! reassign a randomly chosen conflicted node, bounded by an iteration cap.

use vstd::prelude::*;
use crate::color_graph::ColorGraph;
use crate::coloring::{
    coloring_within, conflict_sum, conflicts_at_spec, full_coloring, is_complete_spec,
    lemma_conflict_sum_nonneg, lemma_count_same_bounds, GraphColoring,
};
use crate::colors::{budget_size, Choices, Color, NumColors};
use crate::rand_source::RandomSource;
use crate::seeder::connected;

verus! {

broadcast use vstd::std_specs::hash::group_hash_axioms, vstd::seq_lib::group_seq_properties;

/// The repair loop gives up after this many reassignments.
pub const MAX_ITER: usize = 2048;

/// What one local search attempt produced.
pub struct LocalSearchReport {
    /// The final coloring: always full, not always conflict free.
    pub coloring: GraphColoring,
    /// How many repair steps ran.
    pub iterations: usize,
    /// Whether the final coloring solves the instance.
    pub complete: bool,
}

/// A positive conflict sum over the first `n` nodes names a conflicted node.
pub proof fn lemma_conflict_sum_pos_exists(adj: Seq<Seq<usize>>, m: Map<usize, Color>, n: int)
    requires
        conflict_sum(adj, m, n) > 0,
    ensures
        exists|u: int| 0 <= u < n && conflicts_at_spec(adj, m, u) > 0,
    decreases n,
{
    if n > 0 {
        if conflicts_at_spec(adj, m, n - 1) > 0 {
            assert(0 <= n - 1 < n && conflicts_at_spec(adj, m, n - 1) > 0);
        } else {
            if m.contains_key((n - 1) as usize) && 0 <= n - 1 < adj.len() {
                lemma_count_same_bounds(m, m[(n - 1) as usize], adj[n - 1]);
            }
            lemma_conflict_sum_pos_exists(adj, m, n - 1);
        }
    }
}

impl ColorGraph {
    /// The nodes that currently have at least one conflict: exactly those,
    /// and no other, in ascending order of node id.
    fn conflicted_nodes(&self, vals: &GraphColoring) -> (r: Vec<usize>)
        requires
            self.wf(),
        ensures
            forall|i: int|
                0 <= i < r@.len() ==> (#[trigger] r@[i]) < self.adj().len() && conflicts_at_spec(
                    self.adj(),
                    vals@,
                    r@[i] as int,
                ) > 0,
            forall|u: usize|
                u < self.adj().len() && conflicts_at_spec(self.adj(), vals@, u as int) > 0
                    ==> r@.contains(u),
    {
        let n = self.node_count();
        let mut pool: Vec<usize> = Vec::new();
        let mut u: usize = 0;
        while u < n
            invariant
                self.wf(),
                n == self.adj().len(),
                u <= n,
                forall|i: int|
                    0 <= i < pool@.len() ==> (#[trigger] pool@[i]) < n && conflicts_at_spec(
                        self.adj(),
                        vals@,
                        pool@[i] as int,
                    ) > 0,
                forall|w: usize|
                    w < u && #[trigger] conflicts_at_spec(self.adj(), vals@, w as int) > 0
                        ==> pool@.contains(w),
            decreases n - u,
        {
            let c = self.count_confl_idx(u, vals);
            let ghost pre = pool@;
            if c > 0 {
                pool.push(u);
            }
            proof {
                assert forall|w: usize|
                    w < u + 1 && #[trigger] conflicts_at_spec(self.adj(), vals@, w as int)
                        > 0 implies pool@.contains(w) by {
                    if w < u {
                        assert(pre.contains(w));
                        let i = choose|i: int| 0 <= i < pre.len() && pre[i] == w;
                        assert(pool@[i] == w);
                    } else {
                        assert(pool@[pool@.len() - 1] == w);
                    }
                }
            }
            u += 1;
        }
        pool
    }

    /// Repair a seeded coloring by min-conflicts search: while the coloring
    /// is not complete and the cap is not reached, pick one conflicted node
    /// uniformly at random, recompute its choice set from its neighbors, and
    /// reassign it a random legal color, or a random color of the full budget
    /// when none is legal. The result is always a full coloring within the
    /// budget; it reports completeness exactly, and it gives up only after
    /// exactly `MAX_ITER` repair steps. On a graph whose every degree is
    /// below the budget the seed is already complete, so no repair step runs
    /// and the seed comes back unchanged, node 0 red.
    pub fn local_search(&self, num_colors: NumColors, rng: &mut RandomSource) -> (r:
        LocalSearchReport)
        requires
            self.wf(),
            self.adj().len() >= 1,
            connected(self.adj()),
        ensures
            full_coloring(self.adj(), r.coloring@),
            coloring_within(self.adj().len() as int, r.coloring@, num_colors),
            r.complete == is_complete_spec(self.adj(), r.coloring@),
            r.iterations <= MAX_ITER,
            !r.complete ==> r.iterations == MAX_ITER,
            r.iterations == 0 ==> r.complete,
            (forall|u: int|
                0 <= u < self.adj().len() ==> self.adj()[u].len() < budget_size(num_colors)) ==> (
            r.complete && r.iterations == 0 && r.coloring@[0usize] == Color::Red),
    {
        let ghost adj = self.adj();
        let ghost low_degree = forall|u: int|
            0 <= u < self.adj().len() ==> self.adj()[u].len() < budget_size(num_colors);
        let n = self.node_count();
        let mut coloring = self.naive_coloring(num_colors, rng);
        proof {
            if low_degree {
                assert(is_complete_spec(adj, coloring@));
            }
        }
        let mut itr: usize = 0;
        let mut done = self.is_complete(&coloring);
        while itr < MAX_ITER && !done
            invariant
                self.wf(),
                adj == self.adj(),
                n == adj.len(),
                n >= 1,
                itr <= MAX_ITER,
                done == is_complete_spec(adj, coloring@),
                full_coloring(adj, coloring@),
                coloring_within(n as int, coloring@, num_colors),
                low_degree == (forall|u: int|
                    0 <= u < adj.len() ==> adj[u].len() < budget_size(num_colors)),
                low_degree ==> (done && itr == 0 && coloring@[0usize] == Color::Red),
            decreases MAX_ITER - itr,
        {
            proof {
                lemma_conflict_sum_nonneg(adj, coloring@, adj.len() as int);
                assert(conflict_sum(adj, coloring@, adj.len() as int) > 0);
                lemma_conflict_sum_pos_exists(adj, coloring@, adj.len() as int);
            }
            let pool = self.conflicted_nodes(&coloring);
            proof {
                let w = choose|w: int| 0 <= w < n && conflicts_at_spec(adj, coloring@, w) > 0;
                assert(pool@.contains(w as usize));
            }
            let pick = rng.gen_index(pool.len());
            let idx = pool[pick];
            let choices = self.choices_at(idx, &coloring, num_colors);
            let col = if choices.stuck() {
                Color::rand_from_choices(Choices::new(num_colors), rng)
            } else {
                Color::rand_from_choices(choices, rng)
            };
            coloring.insert(idx, col);
            itr += 1;
            done = self.is_complete(&coloring);
        }
        LocalSearchReport { coloring, iterations: itr, complete: done }
    }
}

} // verus!
