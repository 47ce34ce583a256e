//! The constructive solver: repeatedly assign the most constrained node the
//! least constraining of its legal colors, never revising a commitment, and
//! fail as stuck when the most constrained node has no legal color left.

use vstd::prelude::*;
use std::collections::HashMap;
use crate::color_graph::{adjacent, ColorGraph};
use crate::coloring::{
    coloring_within, full_coloring, is_complete_spec, neighbor_has_color, GraphColoring,
};
use crate::colors::{color_in_budget, color_index, Choices, Color, NumColors};
use crate::seeder::{count_marked, lemma_count_marked_le_len, lemma_count_marked_none, lemma_count_marked_set};

verus! {

broadcast use vstd::std_specs::hash::group_hash_axioms, vstd::seq_lib::group_seq_properties;

/// The per-node choice sets after color `c` is struck from every neighbor of
/// node `u`.
pub open spec fn removed_choices(adj: Seq<Seq<usize>>, cv: Seq<Choices>, u: int, c: Color) -> Seq<
    Choices,
> {
    Seq::new(
        cv.len(),
        |w: int|
            if 0 <= u < adj.len() && adj[u].contains(w as usize) {
                cv[w].remove_spec(c)
            } else {
                cv[w]
            },
    )
}

/// The summed legal-color counts of the first `n` choice sets.
pub open spec fn amount_sum(cv: Seq<Choices>, n: int) -> int
    decreases n,
{
    if n <= 0 {
        0
    } else {
        amount_sum(cv, n - 1) + cv[n - 1].amount_spec()
    }
}

/// The whole-graph flexibility left after committing color `c` to node `u`:
/// the summed legal-color counts once `c` is struck from `u`'s neighbors.
pub open spec fn sim_sum(adj: Seq<Seq<usize>>, cv: Seq<Choices>, u: int, c: Color) -> int {
    amount_sum(removed_choices(adj, cv, u, c), cv.len() as int)
}

/// Node `u` is the most constrained unassigned node: no unassigned node has
/// fewer legal colors, and no smaller-numbered unassigned node has as few.
pub open spec fn mrv_pick(
    adj: Seq<Seq<usize>>,
    cv: Seq<Choices>,
    m: Map<usize, Color>,
    u: usize,
) -> bool {
    &&& u < adj.len()
    &&& !m.contains_key(u)
    &&& forall|w: usize|
        w < adj.len() && !m.contains_key(w) ==> cv[u as int].amount_spec()
            <= cv[w as int].amount_spec()
    &&& forall|w: usize|
        w < u ==> m.contains_key(w) || cv[w as int].amount_spec() > cv[u as int].amount_spec()
}

/// Color `c` is the least constraining legal color of node `u`: no legal
/// color leaves more whole-graph flexibility, and no earlier color in the
/// fixed order leaves as much.
pub open spec fn lcv_pick(adj: Seq<Seq<usize>>, cv: Seq<Choices>, u: int, c: Color) -> bool {
    &&& 0 <= u < cv.len()
    &&& cv[u].legal(c)
    &&& forall|d: Color|
        cv[u].legal(d) ==> sim_sum(adj, cv, u, d) <= sim_sum(adj, cv, u, c)
    &&& forall|d: Color|
        cv[u].legal(d) && color_index(d) < color_index(c) ==> sim_sum(adj, cv, u, d) < sim_sum(
            adj,
            cv,
            u,
            c,
        )
}

/// No two assigned adjacent nodes share a color.
pub open spec fn partial_conflict_free(adj: Seq<Seq<usize>>, m: Map<usize, Color>) -> bool {
    forall|w: usize, t: int|
        #[trigger] m.contains_key(w) && w < adj.len() && 0 <= t < adj[w as int].len()
            && m.contains_key(#[trigger] adj[w as int][t]) ==> m[w] != m[adj[w as int][t]]
}

/// What the constructive solver maintains between steps: the choice sets
/// cover every node, the coloring stays within the budget, a node's choice
/// set holds exactly the budget colors that no assigned neighbor carries,
/// and the partial coloring is conflict free.
pub open spec fn constructive_inv(
    adj: Seq<Seq<usize>>,
    cv: Seq<Choices>,
    m: Map<usize, Color>,
    num_colors: NumColors,
) -> bool {
    &&& cv.len() == adj.len()
    &&& coloring_within(adj.len() as int, m, num_colors)
    &&& forall|w: int, c: Color|
        0 <= w < adj.len() ==> ((#[trigger] cv[w].legal(c)) <==> (color_in_budget(c, num_colors)
            && !neighbor_has_color(adj, m, w, c)))
    &&& partial_conflict_free(adj, m)
}

/// A conflict-free coloring has a total conflict count of zero.
pub proof fn lemma_conflict_free_total_zero(adj: Seq<Seq<usize>>, m: Map<usize, Color>)
    requires
        adj.len() <= usize::MAX,
        partial_conflict_free(adj, m),
    ensures
        crate::coloring::total_conflicts_spec(adj, m) == 0,
{
    assert forall|u: int|
        0 <= u < adj.len() implies crate::coloring::conflicts_at_spec(adj, m, u) == 0 by {
        if m.contains_key(u as usize) {
            let uu = u as usize;
            assert forall|t: int|
                0 <= t < adj[u].len() implies !(m.contains_key(#[trigger] adj[u][t]) && m[adj[u][t]]
                == m[uu]) by {
                if m.contains_key(adj[u][t]) {
                    assert(m.contains_key(uu) && uu < adj.len() && 0 <= t < adj[uu as int].len());
                    assert(m[uu] != m[adj[uu as int][t]]);
                }
            }
            crate::coloring::lemma_count_same_zero(m, m[uu], adj[u]);
        }
    }
    crate::coloring::lemma_conflict_sum_zero(adj, m, adj.len() as int);
}

/// The choice sets of a fresh attempt: every node starts with the budget's
/// full set.
pub open spec fn fresh_choices(n: int, num_colors: NumColors) -> Seq<Choices> {
    Seq::new(n as nat, |i: int| crate::colors::budget_choices(num_colors))
}

/// The state the deterministic solver reaches from a given state: while the
/// coloring is not complete, the most constrained unassigned node either has
/// no legal color left, which ends the attempt as stuck, or is committed to
/// its least constraining color, which is struck from its neighbors' sets.
/// The result is the final coloring, the final choice sets, and the stuck
/// flag. `fuel` bounds the recursion; one unit per node suffices, since each
/// step assigns one more node.
pub open spec fn solve_from(
    adj: Seq<Seq<usize>>,
    cv: Seq<Choices>,
    m: Map<usize, Color>,
    fuel: nat,
) -> (Map<usize, Color>, Seq<Choices>, bool)
    decreases fuel,
{
    if is_complete_spec(adj, m) {
        (m, cv, false)
    } else if fuel == 0 || !(exists|u: usize| mrv_pick(adj, cv, m, u)) {
        (m, cv, false)
    } else {
        let u = choose|u: usize| mrv_pick(adj, cv, m, u);
        if cv[u as int].stuck_spec() {
            (m, cv, true)
        } else if !(exists|c: Color| lcv_pick(adj, cv, u as int, c)) {
            (m, cv, false)
        } else {
            let c = choose|c: Color| lcv_pick(adj, cv, u as int, c);
            solve_from(adj, removed_choices(adj, cv, u as int, c), m.insert(u, c), (fuel - 1) as nat)
        }
    }
}

/// At most one node is the most constrained one: the tie-break to the lowest
/// node id leaves no choice.
pub proof fn lemma_mrv_unique(
    adj: Seq<Seq<usize>>,
    cv: Seq<Choices>,
    m: Map<usize, Color>,
    u1: usize,
    u2: usize,
)
    requires
        mrv_pick(adj, cv, m, u1),
        mrv_pick(adj, cv, m, u2),
    ensures
        u1 == u2,
{
    if u1 < u2 {
        assert(m.contains_key(u1) || cv[u1 as int].amount_spec() > cv[u2 as int].amount_spec());
        assert(cv[u1 as int].amount_spec() <= cv[u2 as int].amount_spec());
    }
    if u2 < u1 {
        assert(m.contains_key(u2) || cv[u2 as int].amount_spec() > cv[u1 as int].amount_spec());
        assert(cv[u2 as int].amount_spec() <= cv[u1 as int].amount_spec());
    }
}

/// At most one color is the least constraining one: the tie-break to the
/// first color in the fixed order leaves no choice.
pub proof fn lemma_lcv_unique(adj: Seq<Seq<usize>>, cv: Seq<Choices>, u: int, c1: Color, c2: Color)
    requires
        lcv_pick(adj, cv, u, c1),
        lcv_pick(adj, cv, u, c2),
    ensures
        c1 == c2,
{
    if color_index(c1) < color_index(c2) {
        assert(sim_sum(adj, cv, u, c1) < sim_sum(adj, cv, u, c2));
        assert(sim_sum(adj, cv, u, c2) <= sim_sum(adj, cv, u, c1));
    }
    if color_index(c2) < color_index(c1) {
        assert(sim_sum(adj, cv, u, c2) < sim_sum(adj, cv, u, c1));
        assert(sim_sum(adj, cv, u, c1) <= sim_sum(adj, cv, u, c2));
    }
    assert(color_index(c1) == color_index(c2));
    assert(c1 == c2) by {
        match c1 {
            Color::Red => assert(c2 == Color::Red),
            Color::Green => assert(c2 == Color::Green),
            Color::Blue => assert(c2 == Color::Blue),
            Color::Yellow => assert(c2 == Color::Yellow),
        }
    }
}

/// Assigning a node a color that none of its neighbors carries keeps the
/// coloring conflict free, whether the node was colored before or not.
pub proof fn lemma_insert_keeps_conflict_free(
    adj: Seq<Seq<usize>>,
    m: Map<usize, Color>,
    u: usize,
    c: Color,
)
    requires
        crate::color_graph::adj_wf(adj),
        u < adj.len(),
        partial_conflict_free(adj, m),
        !neighbor_has_color(adj, m, u as int, c),
    ensures
        partial_conflict_free(adj, m.insert(u, c)),
{
    let m1 = m.insert(u, c);
    assert forall|w: usize, t: int|
        #[trigger] m1.contains_key(w) && w < adj.len() && 0 <= t < adj[w as int].len()
            && m1.contains_key(#[trigger] adj[w as int][t]) implies m1[w] != m1[adj[w as int][t]] by {
        let x = adj[w as int][t];
        assert(x < adj.len() && x != w);
        if w == u {
            if m.contains_key(x) {
                assert(m[x] != c) by {
                    if m[x] == c {
                        assert(neighbor_has_color(adj, m, u as int, c));
                    }
                }
                assert(m1[w] == c && m1[x] == m[x]);
            } else {
                assert(x != u);
                assert(!m1.contains_key(x));
            }
        } else if x == u {
            assert(m.contains_key(w));
            assert(adj[w as int].contains(u));
            assert(adjacent(adj, w as int, u as int));
            assert(adjacent(adj, u as int, w as int));
            let s = choose|s: int| 0 <= s < adj[u as int].len() && adj[u as int][s] == w;
            assert(m[w] != c) by {
                if m[w] == c {
                    assert(m.contains_key(adj[u as int][s]));
                    assert(neighbor_has_color(adj, m, u as int, c));
                }
            }
            assert(m1[x] == c && m1[w] == m[w]);
        } else {
            assert(m.contains_key(w) && m.contains_key(x));
            assert(m[w] != m[x]);
        }
    }
}

/// The outcome of one constructive step.
#[derive(Clone, Copy, PartialEq, Eq, Structural, Debug)]
pub enum StepOutcome {
    /// One node was committed to a color.
    Assigned,
    /// The most constrained node has no legal color: the attempt fails.
    Stuck,
}

impl ColorGraph {
    /// The most constrained unassigned node, lowest node id on ties; `None`
    /// when every node is assigned.
    fn most_constrained(&self, choices_vec: &Vec<Choices>, vals: &GraphColoring) -> (r: Option<
        usize,
    >)
        requires
            self.wf(),
            choices_vec@.len() == self.adj().len(),
        ensures
            match r {
                Some(u) => mrv_pick(self.adj(), choices_vec@, vals@, u),
                None => full_coloring(self.adj(), vals@),
            },
    {
        let n = self.node_count();
        let mut best: Option<usize> = None;
        let mut best_amount: usize = 0;
        let mut w: usize = 0;
        while w < n
            invariant
                self.wf(),
                n == self.adj().len(),
                choices_vec@.len() == n,
                w <= n,
                match best {
                    Some(u) => {
                        &&& u < w
                        &&& !vals@.contains_key(u)
                        &&& best_amount == choices_vec@[u as int].amount_spec()
                        &&& forall|v: usize|
                            v < w && !vals@.contains_key(v) ==> best_amount
                                <= choices_vec@[v as int].amount_spec()
                        &&& forall|v: usize|
                            v < u ==> vals@.contains_key(v) || choices_vec@[v as int].amount_spec()
                                > best_amount
                    },
                    None => forall|v: usize| v < w ==> vals@.contains_key(v),
                },
            decreases n - w,
        {
            if !vals.contains_key(&w) {
                let a = choices_vec[w].amount();
                match best {
                    Some(_) => {
                        if a < best_amount {
                            best = Some(w);
                            best_amount = a;
                        }
                    },
                    None => {
                        best = Some(w);
                        best_amount = a;
                    },
                }
            }
            w += 1;
        }
        best
    }

    /// Build the choice sets as they would stand after committing color `c`
    /// to node `u`: `c` struck from every neighbor of `u`.
    fn simulate_removal(&self, u: usize, c: Color, choices_vec: &Vec<Choices>) -> (r: Vec<Choices>)
        requires
            self.wf(),
            u < self.adj().len(),
            choices_vec@.len() == self.adj().len(),
        ensures
            r@ =~= removed_choices(self.adj(), choices_vec@, u as int, c),
    {
        let n = self.node_count();
        let mut sim: Vec<Choices> = Vec::new();
        let mut w: usize = 0;
        while w < n
            invariant
                choices_vec@.len() == n,
                w <= n,
                sim@.len() == w,
                forall|t: int| 0 <= t < w ==> sim@[t] == choices_vec@[t],
            decreases n - w,
        {
            sim.push(choices_vec[w]);
            w += 1;
        }
        let nbrs = self.neighbors(u);
        let ghost gnbrs = self.adj()[u as int];
        let mut k: usize = 0;
        while k < nbrs.len()
            invariant
                self.wf(),
                u < self.adj().len(),
                nbrs@ == gnbrs,
                gnbrs == self.adj()[u as int],
                k <= nbrs@.len(),
                choices_vec@.len() == self.adj().len(),
                sim@.len() == choices_vec@.len(),
                forall|w: int|
                    0 <= w < sim@.len() ==> #[trigger] sim@[w] == (if exists|t: int|
                        0 <= t < k && gnbrs[t] == w {
                        choices_vec@[w].remove_spec(c)
                    } else {
                        choices_vec@[w]
                    }),
            decreases nbrs@.len() - k,
        {
            let nb = nbrs[k];
            proof {
                assert(gnbrs[k as int] < self.adj().len());
            }
            let cur = sim[nb];
            let mut upd = cur;
            upd.remove(c);
            sim.set(nb, upd);
            proof {
                assert forall|w: int| 0 <= w < sim@.len() implies #[trigger] sim@[w] == (
                if exists|t: int| 0 <= t < k + 1 && gnbrs[t] == w {
                    choices_vec@[w].remove_spec(c)
                } else {
                    choices_vec@[w]
                }) by {
                    if w == nb as int {
                        assert(gnbrs[k as int] == w);
                    } else {
                        if exists|t: int| 0 <= t < k + 1 && gnbrs[t] == w {
                            let t = choose|t: int| 0 <= t < k + 1 && gnbrs[t] == w;
                            assert(t < k);
                            assert(exists|t: int| 0 <= t < k && gnbrs[t] == w);
                        }
                    }
                }
            }
            k += 1;
        }
        proof {
            assert forall|w: int| 0 <= w < sim@.len() implies sim@[w] == removed_choices(
                self.adj(),
                choices_vec@,
                u as int,
                c,
            )[w] by {
                if gnbrs.contains(w as usize) {
                    let t = choose|t: int| 0 <= t < gnbrs.len() && gnbrs[t] == w as usize;
                    assert(exists|t: int| 0 <= t < k && gnbrs[t] == w);
                } else {
                    if exists|t: int| 0 <= t < k && gnbrs[t] == w {
                        let t = choose|t: int| 0 <= t < k && gnbrs[t] == w;
                        assert(gnbrs.contains(w as usize));
                    }
                }
            }
        }
        sim
    }

    /// The summed legal-color count over all nodes of a simulated state.
    fn amount_total(cv: &Vec<Choices>) -> (r: u128)
        ensures
            r == amount_sum(cv@, cv@.len() as int),
    {
        let mut total: u128 = 0;
        let mut w: usize = 0;
        while w < cv.len()
            invariant
                w <= cv@.len(),
                total == amount_sum(cv@, w as int),
                total <= 4 * (w as int),
            decreases cv@.len() - w,
        {
            let a = cv[w].amount();
            total += a as u128;
            w += 1;
        }
        total
    }

    /// The least constraining legal color of node `u`: the legal color whose
    /// simulated commitment leaves the largest summed legal-color count, the
    /// earliest color in the fixed order on ties.
    fn lcv_choice(&self, u: usize, choices: Choices, choices_vec: &Vec<Choices>) -> (r: Color)
        requires
            self.wf(),
            u < self.adj().len(),
            choices_vec@.len() == self.adj().len(),
            choices == choices_vec@[u as int],
            !choices.stuck_spec(),
        ensures
            lcv_pick(self.adj(), choices_vec@, u as int, r),
    {
        let arr = choices.as_arr();
        let mut have = false;
        let mut best_c = Color::Red;
        let mut best_s: u128 = 0;
        let mut i: usize = 0;
        while i < 4
            invariant
                self.wf(),
                u < self.adj().len(),
                choices_vec@.len() == self.adj().len(),
                choices == choices_vec@[u as int],
                i <= 4,
                arr@ =~= (seq![
                    (choices.red, Color::Red),
                    (choices.green, Color::Green),
                    (choices.blue, Color::Blue),
                    (choices.yellow, Color::Yellow),
                ]),
                forall|d: Color| 0 <= color_index(d) < i ==> arr@[color_index(d)] == (
                    choices.legal(d),
                    d,
                ),
                !have ==> forall|d: Color| color_index(d) < i ==> !choices.legal(d),
                have ==> {
                    &&& choices.legal(best_c)
                    &&& color_index(best_c) < i
                    &&& best_s == sim_sum(self.adj(), choices_vec@, u as int, best_c)
                    &&& forall|d: Color|
                        choices.legal(d) && color_index(d) < i ==> sim_sum(
                            self.adj(),
                            choices_vec@,
                            u as int,
                            d,
                        ) <= best_s
                    &&& forall|d: Color|
                        choices.legal(d) && color_index(d) < color_index(best_c) ==> sim_sum(
                            self.adj(),
                            choices_vec@,
                            u as int,
                            d,
                        ) < best_s
                },
            decreases 4 - i,
        {
            let (legal, cand) = arr[i];
            proof {
                assert(arr@[i as int] == (choices.legal(cand), cand));
                assert(color_index(cand) == i);
            }
            if legal {
                let sim = self.simulate_removal(u, cand, choices_vec);
                let s = Self::amount_total(&sim);
                proof {
                    assert(sim@ =~= removed_choices(self.adj(), choices_vec@, u as int, cand));
                    assert(s == sim_sum(self.adj(), choices_vec@, u as int, cand));
                }
                if !have || s > best_s {
                    have = true;
                    best_c = cand;
                    best_s = s;
                }
            }
            i += 1;
        }
        proof {
            if !have {
                assert(!choices.legal(Color::Red) && !choices.legal(Color::Green)
                    && !choices.legal(Color::Blue) && !choices.legal(Color::Yellow));
                assert(choices.stuck_spec());
            }
        }
        best_c
    }

    /// One step of the constructive solver: pick the most constrained
    /// unassigned node; if it has no legal color left, fail as stuck and
    /// change nothing; otherwise commit it to its least constraining legal
    /// color and strike that color from every neighbor's choice set. A
    /// committed node is never reassigned: the old coloring is a submap of
    /// the new one, and choice sets only ever shrink.
    pub fn constructive_step(
        &self,
        num_colors: NumColors,
        choices_vec: &mut Vec<Choices>,
        coloring: &mut GraphColoring,
    ) -> (r: StepOutcome)
        requires
            self.wf(),
            constructive_inv(self.adj(), old(choices_vec)@, old(coloring)@, num_colors),
            !full_coloring(self.adj(), old(coloring)@),
        ensures
            constructive_inv(self.adj(), final(choices_vec)@, final(coloring)@, num_colors),
            old(coloring)@.submap_of(final(coloring)@),
            forall|w: int|
                0 <= w < self.adj().len() ==> (#[trigger] final(choices_vec)@[w]).le(
                    old(choices_vec)@[w],
                ),
            (r == StepOutcome::Stuck) <==> (exists|u: usize|
                mrv_pick(self.adj(), old(choices_vec)@, old(coloring)@, u) && old(
                    choices_vec,
                )@[u as int].stuck_spec()),
            r == StepOutcome::Stuck ==> final(coloring)@ == old(coloring)@ && final(choices_vec)@
                == old(choices_vec)@,
            r == StepOutcome::Assigned ==> exists|u: usize|
                {
                    &&& #[trigger] mrv_pick(self.adj(), old(choices_vec)@, old(coloring)@, u)
                    &&& final(coloring)@.contains_key(u)
                    &&& lcv_pick(self.adj(), old(choices_vec)@, u as int, final(coloring)@[u])
                    &&& final(coloring)@ == old(coloring)@.insert(u, final(coloring)@[u])
                    &&& final(choices_vec)@ == removed_choices(
                        self.adj(),
                        old(choices_vec)@,
                        u as int,
                        final(coloring)@[u],
                    )
                },
    {
        let ghost adj = self.adj();
        let ghost cv0 = choices_vec@;
        let ghost m0 = coloring@;
        let pick = self.most_constrained(choices_vec, coloring);
        let u = match pick {
            Some(u) => u,
            None => {
                proof {
                    assert(false);
                }
                0
            },
        };
        let cs = choices_vec[u];
        if cs.stuck() {
            proof {
                crate::colors::lemma_stuck_iff_amount_zero(cs);
            }
            return StepOutcome::Stuck;
        }
        let c = self.lcv_choice(u, cs, choices_vec);
        coloring.insert(u, c);
        let newv = self.simulate_removal(u, c, choices_vec);
        *choices_vec = newv;
        proof {
            let m1 = coloring@;
            let cv1 = choices_vec@;
            assert(cv1 =~= removed_choices(adj, cv0, u as int, c));
            assert(m1 == m0.insert(u, c));
            assert(m1[u] == c);
            // no choice set of the stuck kind was picked
            assert forall|w: usize|
                !(mrv_pick(adj, cv0, m0, w) && cv0[w as int].stuck_spec()) by {
                if mrv_pick(adj, cv0, m0, w) && cv0[w as int].stuck_spec() {
                    crate::colors::lemma_stuck_iff_amount_zero(cv0[w as int]);
                    assert(cv0[u as int].amount_spec() <= cv0[w as int].amount_spec());
                    crate::colors::lemma_stuck_iff_amount_zero(cv0[u as int]);
                }
            }
            // choice sets only shrink
            assert forall|w: int| 0 <= w < adj.len() implies (#[trigger] cv1[w]).le(cv0[w]) by {
                if adj[u as int].contains(w as usize) {
                    assert(cv1[w] == cv0[w].remove_spec(c));
                } else {
                    assert(cv1[w] == cv0[w]);
                }
            }
            // the committed color lies in the budget
            assert(cv0[u as int].legal(c));
            assert(color_in_budget(c, num_colors));
            assert(mrv_pick(adj, cv0, m0, u));
            // a node's choice set holds exactly the budget colors that no
            // assigned neighbor carries
            assert forall|w: int, d: Color|
                0 <= w < adj.len() implies ((#[trigger] cv1[w].legal(d)) <==> (color_in_budget(
                d,
                num_colors,
            ) && !neighbor_has_color(adj, m1, w, d))) by {
                let nbr = adj[u as int].contains(w as usize);
                if nbr {
                    assert(cv1[w] == cv0[w].remove_spec(c));
                } else {
                    assert(cv1[w] == cv0[w]);
                }
                if cv1[w].legal(d) {
                    assert(cv0[w].legal(d));
                    assert(color_in_budget(d, num_colors));
                    assert(!neighbor_has_color(adj, m0, w, d));
                    if neighbor_has_color(adj, m1, w, d) {
                        let t = choose|t: int|
                            0 <= t < adj[w].len() && m1.contains_key(#[trigger] adj[w][t])
                                && m1[adj[w][t]] == d;
                        let x = adj[w][t];
                        if x == u {
                            assert(d == c);
                            assert(adj[w].contains(u));
                            assert(adjacent(adj, w, u as int));
                            assert(adjacent(adj, u as int, w));
                            assert(adj[u as int].contains(w as usize));
                            assert(cv1[w] == cv0[w].remove_spec(c));
                            assert(!cv1[w].legal(c));
                        } else {
                            assert(m0.contains_key(x) && m0[x] == d);
                            assert(neighbor_has_color(adj, m0, w, d));
                        }
                    }
                } else if color_in_budget(d, num_colors) && !neighbor_has_color(adj, m1, w, d) {
                    assert(!neighbor_has_color(adj, m0, w, d)) by {
                        if neighbor_has_color(adj, m0, w, d) {
                            let t = choose|t: int|
                                0 <= t < adj[w].len() && m0.contains_key(#[trigger] adj[w][t])
                                    && m0[adj[w][t]] == d;
                            let x = adj[w][t];
                            assert(x != u);
                            assert(m1.contains_key(x) && m1[x] == d);
                            assert(neighbor_has_color(adj, m1, w, d));
                        }
                    }
                    assert(cv0[w].legal(d));
                    if nbr && d == c {
                        assert(adjacent(adj, u as int, w));
                        assert(adjacent(adj, w, u as int));
                        assert(adj[w].contains(u));
                        let t = choose|t: int| 0 <= t < adj[w].len() && adj[w][t] == u;
                        assert(m1.contains_key(adj[w][t]) && m1[adj[w][t]] == c);
                        assert(neighbor_has_color(adj, m1, w, d));
                        assert(false);
                    }
                    assert(cv1[w].legal(d));
                }
            }
            // the grown coloring stays conflict free
            assert forall|w: usize, t: int|
                #[trigger] m1.contains_key(w) && w < adj.len() && 0 <= t < adj[w as int].len()
                    && m1.contains_key(#[trigger] adj[w as int][t]) implies m1[w] != m1[adj[w as int][t]] by {
                let x = adj[w as int][t];
                assert(x < adj.len() && x != w);
                if w == u {
                    if m0.contains_key(x) {
                        assert(neighbor_has_color(adj, m0, u as int, m0[x]));
                        assert(!cv0[u as int].legal(m0[x]));
                        assert(m1[w] == c && m1[x] == m0[x]);
                    } else {
                        assert(x != u);
                        assert(!m1.contains_key(x));
                    }
                } else if x == u {
                    assert(m0.contains_key(w));
                    assert(adj[w as int].contains(u));
                    assert(adjacent(adj, w as int, u as int));
                    assert(adjacent(adj, u as int, w as int));
                    let s = choose|s: int|
                        0 <= s < adj[u as int].len() && adj[u as int][s] == w;
                    assert(m0.contains_key(adj[u as int][s]));
                    assert(neighbor_has_color(adj, m0, u as int, m0[w]));
                    assert(!cv0[u as int].legal(m0[w]));
                    assert(m1[x] == c && m1[w] == m0[w]);
                } else {
                    assert(m0.contains_key(w) && m0.contains_key(x));
                    assert(m0[w] != m0[x]);
                }
            }
            // exactly the picked node was added
            assert(mrv_pick(adj, cv0, m0, u));
            assert(m0.submap_of(m1));
        }
        StepOutcome::Assigned
    }

    /// Build a coloring from the empty state by repeating the constructive
    /// step until every node is assigned or the most constrained node is
    /// stuck. There is no backtracking: the attempt either completes or
    /// fails with the partial, conflict-free coloring built so far. The
    /// solver draws nothing at random: the result is exactly what
    /// `solve_from` reaches from the fresh budget state, so two runs on the
    /// same graph and budget return the same coloring. It fails as stuck
    /// only when every budget color of some unassigned node is already
    /// carried by one of that node's assigned neighbors.
    pub fn depth_first_search(&self, num_colors: NumColors) -> (r: ConstructiveReport)
        requires
            self.wf(),
        ensures
            r.complete == is_complete_spec(self.adj(), r.coloring@),
            r.stuck == !r.complete,
            coloring_within(self.adj().len() as int, r.coloring@, num_colors),
            partial_conflict_free(self.adj(), r.coloring@),
            r.stuck ==> !full_coloring(self.adj(), r.coloring@),
            ({
                let fin = solve_from(
                    self.adj(),
                    fresh_choices(self.adj().len() as int, num_colors),
                    Map::empty(),
                    (self.adj().len() + 1) as nat,
                );
                r.coloring@ == fin.0 && r.stuck == fin.2
            }),
            r.stuck ==> exists|u: usize|
                u < self.adj().len() && !r.coloring@.contains_key(u) && (forall|c: Color|
                    color_in_budget(c, num_colors) ==> neighbor_has_color(
                        self.adj(),
                        r.coloring@,
                        u as int,
                        c,
                    )),
    {
        let ghost adj = self.adj();
        let n = self.node_count();
        let mut coloring: GraphColoring = HashMap::new();
        let mut choices_vec: Vec<Choices> = Vec::new();
        let mut i: usize = 0;
        while i < n
            invariant
                i <= n,
                choices_vec@.len() == i,
                forall|t: int, c: Color|
                    0 <= t < i ==> ((#[trigger] choices_vec@[t].legal(c)) <==> color_in_budget(
                        c,
                        num_colors,
                    )),
                forall|t: int|
                    0 <= t < i ==> choices_vec@[t] == crate::colors::budget_choices(num_colors),
            decreases n - i,
        {
            choices_vec.push(Choices::new(num_colors));
            i += 1;
        }
        let ghost init_cv = fresh_choices(n as int, num_colors);
        proof {
            assert(choices_vec@ =~= init_cv);
        }
        let mut done = self.is_complete(&coloring);
        let mut stuck = false;
        let ghost mut mask = Seq::new(n as nat, |t: int| false);
        proof {
            lemma_count_marked_le_len(mask);
            crate::seeder::lemma_count_marked_none(mask);
            assert(choices_vec@ == init_cv);
        }
        while !done && !stuck
            invariant
                self.wf(),
                adj == self.adj(),
                n == adj.len(),
                choices_vec@.len() == n,
                constructive_inv(adj, choices_vec@, coloring@, num_colors),
                done == is_complete_spec(adj, coloring@),
                stuck ==> !full_coloring(adj, coloring@),
                mask.len() == n,
                count_marked(mask) <= n,
                forall|u: usize| u < n ==> (mask[u as int] == coloring@.contains_key(u)),
                init_cv == fresh_choices(n as int, num_colors),
                !stuck ==> solve_from(adj, init_cv, Map::empty(), (n + 1) as nat) == solve_from(
                    adj,
                    choices_vec@,
                    coloring@,
                    (n + 1 - count_marked(mask)) as nat,
                ),
                stuck ==> solve_from(adj, init_cv, Map::empty(), (n + 1) as nat) == (
                coloring@,
                choices_vec@,
                true,
                ),
                stuck ==> exists|u: usize|
                    u < n && !coloring@.contains_key(u) && (forall|c: Color|
                        color_in_budget(c, num_colors) ==> neighbor_has_color(
                            adj,
                            coloring@,
                            u as int,
                            c,
                        )),
            decreases (if done || stuck {
                0int
            } else {
                1int
            }), n - count_marked(mask),
        {
            proof {
                if full_coloring(adj, coloring@) {
                    lemma_conflict_free_total_zero(adj, coloring@);
                    assert(is_complete_spec(adj, coloring@));
                }
            }
            let ghost cv_pre = choices_vec@;
            let ghost m_pre = coloring@;
            let ghost mask_pre = mask;
            let step = self.constructive_step(num_colors, &mut choices_vec, &mut coloring);
            match step {
                StepOutcome::Assigned => {
                    proof {
                        let u = choose|u: usize|
                            {
                                &&& #[trigger] mrv_pick(adj, cv_pre, m_pre, u)
                                &&& coloring@.contains_key(u)
                                &&& lcv_pick(adj, cv_pre, u as int, coloring@[u])
                                &&& coloring@ == m_pre.insert(u, coloring@[u])
                                &&& choices_vec@ == removed_choices(
                                    adj,
                                    cv_pre,
                                    u as int,
                                    coloring@[u],
                                )
                            };
                        assert(!m_pre.contains_key(u));
                        assert(!mask[u as int]);
                        lemma_count_marked_set(mask, u as int);
                        mask = mask.update(u as int, true);
                        lemma_count_marked_le_len(mask);
                        assert forall|w: usize| w < n implies (mask[w as int]
                            == coloring@.contains_key(w)) by {
                            if w != u {
                                assert(coloring@.contains_key(w) == m_pre.contains_key(w));
                            }
                        }
                        // the spec solver takes the same step
                        let fuel0 = (n + 1 - count_marked(mask_pre)) as nat;
                        assert(fuel0 >= 1);
                        assert(!is_complete_spec(adj, m_pre));
                        assert(exists|w: usize| mrv_pick(adj, cv_pre, m_pre, w));
                        let su = choose|w: usize| mrv_pick(adj, cv_pre, m_pre, w);
                        lemma_mrv_unique(adj, cv_pre, m_pre, su, u);
                        assert(!cv_pre[u as int].stuck_spec());
                        assert(exists|d: Color| lcv_pick(adj, cv_pre, u as int, d));
                        let sc = choose|d: Color| lcv_pick(adj, cv_pre, u as int, d);
                        lemma_lcv_unique(adj, cv_pre, u as int, sc, coloring@[u]);
                        assert(solve_from(adj, cv_pre, m_pre, fuel0) == solve_from(
                            adj,
                            choices_vec@,
                            coloring@,
                            (fuel0 - 1) as nat,
                        ));
                        assert((n + 1 - count_marked(mask)) as nat == (fuel0 - 1) as nat);
                    }
                },
                StepOutcome::Stuck => {
                    stuck = true;
                    proof {
                        let u = choose|u: usize|
                            mrv_pick(adj, cv_pre, m_pre, u) && cv_pre[u as int].stuck_spec();
                        assert(!coloring@.contains_key(u));
                        // the spec solver ends stuck on the same node
                        let fuel0 = (n + 1 - count_marked(mask_pre)) as nat;
                        assert(fuel0 >= 1);
                        assert(!is_complete_spec(adj, m_pre));
                        assert(exists|w: usize| mrv_pick(adj, cv_pre, m_pre, w));
                        let su = choose|w: usize| mrv_pick(adj, cv_pre, m_pre, w);
                        lemma_mrv_unique(adj, cv_pre, m_pre, su, u);
                        assert(solve_from(adj, cv_pre, m_pre, fuel0) == (m_pre, cv_pre, true));
                        // every budget color of the stuck node sits on a neighbor
                        assert forall|c: Color|
                            color_in_budget(c, num_colors) implies neighbor_has_color(
                            adj,
                            coloring@,
                            u as int,
                            c,
                        ) by {
                            assert(!cv_pre[u as int].legal(c));
                        }
                    }
                },
            }
            done = self.is_complete(&coloring);
        }
        proof {
            if stuck {
                assert(!is_complete_spec(adj, coloring@));
            }
        }
        ConstructiveReport { coloring, complete: done, stuck }
    }
}

/// What one constructive attempt produced.
pub struct ConstructiveReport {
    /// The coloring built: conflict free, but full only on success.
    pub coloring: GraphColoring,
    /// Whether the coloring solves the instance.
    pub complete: bool,
    /// Whether the attempt failed on a node with no legal color left.
    pub stuck: bool,
}

} // verus!
