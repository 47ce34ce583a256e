//! The naive seeder: a breadth-first sweep from node 0 that assigns every
//! node a color, preferring the first legal color in the fixed order and
//! falling back to a random color of the full budget when none is legal.

use vstd::prelude::*;
use std::collections::HashMap;
use std::collections::VecDeque;
use crate::color_graph::{adjacent, ColorGraph};
use crate::coloring::{
    coloring_within, full_coloring, lemma_budget_color_free, total_conflicts_spec, GraphColoring,
};
use crate::colors::{budget_size, color_in_budget, Choices, Color, NumColors};
use crate::constructive::{lemma_insert_keeps_conflict_free, partial_conflict_free};
use crate::rand_source::RandomSource;

verus! {

broadcast use vstd::std_specs::hash::group_hash_axioms, vstd::seq_lib::group_seq_properties;

/// Consecutive entries of `p` are adjacent nodes.
pub open spec fn is_path(adj: Seq<Seq<usize>>, p: Seq<usize>) -> bool {
    &&& p.len() >= 1
    &&& forall|i: int| 0 <= i < p.len() - 1 ==> adjacent(adj, #[trigger] p[i] as int, p[i + 1] as int)
}

/// Node `v` can be reached from node 0 along edges.
pub open spec fn connected_to_zero(adj: Seq<Seq<usize>>, v: usize) -> bool {
    exists|p: Seq<usize>| is_path(adj, p) && p.first() == 0usize && p.last() == v
}

/// Every node can be reached from node 0. The seeder's breadth-first sweep
/// visits exactly the nodes reachable from node 0, so it asks for this.
pub open spec fn connected(adj: Seq<Seq<usize>>) -> bool {
    forall|v: usize| v < adj.len() ==> connected_to_zero(adj, v)
}

/// A set of nodes that no edge leaves.
pub open spec fn closed_under_adjacency(adj: Seq<Seq<usize>>, s: Set<usize>) -> bool {
    forall|u: usize, v: usize|
        #[trigger] s.contains(u) && #[trigger] adjacent(adj, u as int, v as int) ==> s.contains(v)
}

/// A path that starts inside a closed set ends inside it.
pub proof fn lemma_path_stays_in_closed_set(adj: Seq<Seq<usize>>, s: Set<usize>, p: Seq<usize>)
    requires
        is_path(adj, p),
        s.contains(p.first()),
        closed_under_adjacency(adj, s),
    ensures
        s.contains(p.last()),
    decreases p.len(),
{
    if p.len() > 1 {
        assert(adjacent(adj, p[0] as int, p[1] as int));
        assert(s.contains(p[1]));
        let q = p.subrange(1, p.len() as int);
        assert forall|i: int| 0 <= i < q.len() - 1 implies adjacent(
            adj,
            #[trigger] q[i] as int,
            q[i + 1] as int,
        ) by {
            assert(q[i] == p[i + 1] && q[i + 1] == p[i + 2]);
            assert(adjacent(adj, p[i + 1] as int, p[i + 2] as int));
        }
        lemma_path_stays_in_closed_set(adj, s, q);
        assert(q.last() == p.last());
    }
}

/// How many entries of a mark vector are set.
pub open spec fn count_marked(s: Seq<bool>) -> int
    decreases s.len(),
{
    if s.len() == 0 {
        0
    } else {
        count_marked(s.drop_last()) + if s.last() {
            1int
        } else {
            0int
        }
    }
}

/// The count of set marks lies between zero and the vector's length.
pub proof fn lemma_count_marked_le_len(s: Seq<bool>)
    ensures
        0 <= count_marked(s) <= s.len(),
    decreases s.len(),
{
    if s.len() > 0 {
        lemma_count_marked_le_len(s.drop_last());
    }
}

/// A mark vector with no set marks counts zero.
pub proof fn lemma_count_marked_none(s: Seq<bool>)
    requires
        forall|i: int| 0 <= i < s.len() ==> !s[i],
    ensures
        count_marked(s) == 0,
    decreases s.len(),
{
    if s.len() > 0 {
        lemma_count_marked_none(s.drop_last());
    }
}

/// Setting one clear mark raises the count by one.
pub proof fn lemma_count_marked_set(s: Seq<bool>, i: int)
    requires
        0 <= i < s.len(),
        !s[i],
    ensures
        count_marked(s.update(i, true)) == count_marked(s) + 1,
    decreases s.len(),
{
    if i == s.len() - 1 {
        assert(s.update(i, true).drop_last() =~= s.drop_last());
    } else {
        assert(s.update(i, true).drop_last() =~= s.drop_last().update(i, true));
        lemma_count_marked_set(s.drop_last(), i);
    }
}

impl ColorGraph {
    /// Mark every unmarked neighbor of `idx` and put it on the queue.
    fn mark_and_enqueue(&self, idx: usize, visited: &mut Vec<bool>, queue: &mut VecDeque<usize>)
        requires
            self.wf(),
            idx < self.adj().len(),
            old(visited)@.len() == self.adj().len(),
            forall|i: int|
                0 <= i < old(queue)@.len() ==> (#[trigger] old(queue)@[i]) < self.adj().len()
                    && old(visited)@[old(queue)@[i] as int],
        ensures
            final(visited)@.len() == self.adj().len(),
            forall|u: int| 0 <= u < self.adj().len() && old(visited)@[u] ==> final(visited)@[u],
            forall|t: int|
                0 <= t < self.adj()[idx as int].len() ==> final(visited)@[(
                #[trigger] self.adj()[idx as int][t]) as int],
            forall|u: usize|
                u < self.adj().len() && final(visited)@[u as int] && !old(visited)@[u as int]
                    ==> final(queue)@.contains(u),
            forall|u: usize|
                u < self.adj().len() && final(visited)@[u as int] && !old(visited)@[u as int]
                    ==> self.adj()[idx as int].contains(u),
            forall|u: usize| old(queue)@.contains(u) ==> final(queue)@.contains(u),
            forall|i: int|
                0 <= i < final(queue)@.len() ==> old(queue)@.contains(#[trigger] final(queue)@[i])
                    || !old(visited)@[final(queue)@[i] as int],
            forall|i: int|
                0 <= i < final(queue)@.len() ==> (#[trigger] final(queue)@[i]) < self.adj().len()
                    && final(visited)@[final(queue)@[i] as int],
            final(queue)@.len() - old(queue)@.len() == count_marked(final(visited)@)
                - count_marked(old(visited)@),
            count_marked(final(visited)@) >= count_marked(old(visited)@),
    {
        let n = self.node_count();
        let nbrs = self.neighbors(idx);
        let ghost gnbrs = self.adj()[idx as int];
        let ghost vis0 = visited@;
        let ghost q0 = queue@;
        let mut k: usize = 0;
        while k < nbrs.len()
            invariant
                self.wf(),
                n == self.adj().len(),
                idx < n,
                nbrs@ == gnbrs,
                gnbrs == self.adj()[idx as int],
                k <= nbrs@.len(),
                visited@.len() == n,
                vis0.len() == n,
                forall|u: int| 0 <= u < n && vis0[u] ==> visited@[u],
                forall|t: int| 0 <= t < k ==> visited@[(#[trigger] gnbrs[t]) as int],
                forall|u: usize|
                    u < n && visited@[u as int] && !vis0[u as int] ==> queue@.contains(u),
                forall|u: usize|
                    u < n && visited@[u as int] && !vis0[u as int] ==> gnbrs.contains(u),
                forall|u: usize| q0.contains(u) ==> queue@.contains(u),
                forall|i: int|
                    0 <= i < queue@.len() ==> q0.contains(#[trigger] queue@[i])
                        || !vis0[queue@[i] as int],
                forall|i: int|
                    0 <= i < queue@.len() ==> (#[trigger] queue@[i]) < n
                        && visited@[queue@[i] as int],
                queue@.len() - q0.len() == count_marked(visited@) - count_marked(vis0),
                count_marked(visited@) >= count_marked(vis0),
            decreases nbrs@.len() - k,
        {
            let nb = nbrs[k];
            proof {
                assert(gnbrs[k as int] < n && gnbrs[k as int] != idx);
            }
            if !visited[nb] {
                proof {
                    lemma_count_marked_set(visited@, nb as int);
                    assert(gnbrs[k as int] == nb);
                    assert(gnbrs.contains(nb));
                }
                visited.set(nb, true);
                queue.push_back(nb);
            }
            k += 1;
        }
    }

    /// Whether every node can be reached from node 0: the seeder asks this
    /// of its graph.
    pub fn is_connected(&self) -> (r: bool)
        requires
            self.wf(),
            self.adj().len() >= 1,
        ensures
            r == connected(self.adj()),
    {
        let n = self.node_count();
        let mut visited: Vec<bool> = Vec::new();
        let mut i: usize = 0;
        while i < n
            invariant
                i <= n,
                visited@.len() == i,
                forall|u: int| 0 <= u < i ==> !visited@[u],
            decreases n - i,
        {
            visited.push(false);
            i += 1;
        }
        let mut queue: VecDeque<usize> = VecDeque::new();
        visited.set(0, true);
        proof {
            lemma_count_marked_le_len(visited@);
            let p = seq![0usize];
            assert(is_path(self.adj(), p) && p.first() == 0usize && p.last() == 0usize);
        }
        queue.push_back(0);
        let ghost adj = self.adj();
        let ghost mut processed: Set<usize> = Set::empty();
        while queue.len() != 0
            invariant
                self.wf(),
                adj == self.adj(),
                n == adj.len(),
                n >= 1,
                visited@.len() == n,
                visited@[0],
                count_marked(visited@) <= n,
                forall|u: usize|
                    #[trigger] processed.contains(u) ==> u < n && visited@[u as int],
                forall|i: int|
                    0 <= i < queue@.len() ==> (#[trigger] queue@[i]) < n
                        && visited@[queue@[i] as int],
                forall|u: usize|
                    u < n && visited@[u as int] ==> processed.contains(u) || queue@.contains(u),
                forall|u: usize, t: int|
                    #[trigger] processed.contains(u) && 0 <= t < adj[u as int].len()
                        ==> visited@[(#[trigger] adj[u as int][t]) as int],
                forall|u: usize| u < n && visited@[u as int] ==> connected_to_zero(adj, u),
            decreases 2 * (n - count_marked(visited@)) + queue@.len(),
        {
            let ghost qpre = queue@;
            let idx = queue.pop_front().unwrap();
            let ghost qafter = queue@;
            proof {
                processed = processed.insert(idx);
            }
            let ghost vis1 = visited@;
            self.mark_and_enqueue(idx, &mut visited, &mut queue);
            proof {
                lemma_count_marked_le_len(visited@);
                assert forall|u: usize| u < n && visited@[u as int] implies processed.contains(u)
                    || queue@.contains(u) by {
                    if !vis1[u as int] {
                        assert(queue@.contains(u));
                    } else if !processed.contains(u) {
                        assert(qpre.contains(u));
                        let j = choose|j: int| 0 <= j < qpre.len() && qpre[j] == u;
                        if j == 0 {
                            assert(u == idx);
                        } else {
                            assert(qafter[j - 1] == u);
                            assert(qafter.contains(u));
                        }
                    }
                }
                assert forall|u: usize| u < n && visited@[u as int] implies connected_to_zero(
                    adj,
                    u,
                ) by {
                    if !vis1[u as int] {
                        assert(adj[idx as int].contains(u));
                        assert(adjacent(adj, idx as int, u as int));
                        assert(idx < n && vis1[idx as int]) by {
                            assert(qpre[0] == idx);
                        }
                        assert(connected_to_zero(adj, idx));
                        let p = choose|p: Seq<usize>|
                            is_path(adj, p) && p.first() == 0usize && p.last() == idx;
                        let p2 = p.push(u);
                        assert(is_path(adj, p2)) by {
                            assert forall|i: int| 0 <= i < p2.len() - 1 implies adjacent(
                                adj,
                                #[trigger] p2[i] as int,
                                p2[i + 1] as int,
                            ) by {
                                if i < p.len() - 1 {
                                    assert(adjacent(adj, p[i] as int, p[i + 1] as int));
                                    assert(p2[i] == p[i] && p2[i + 1] == p[i + 1]);
                                } else {
                                    assert(p2[i] == p.last() && p2[i + 1] == u);
                                    assert(adjacent(adj, idx as int, u as int));
                                }
                            }
                        }
                        assert(p2[0] == p[0]);
                        assert(p2.first() == 0usize && p2.last() == u);
                    }
                }
            }
        }
        let mut all = true;
        let mut u: usize = 0;
        while u < n
            invariant
                n == self.adj().len(),
                visited@.len() == n,
                u <= n,
                all <==> (forall|w: int| 0 <= w < u ==> visited@[w]),
            decreases n - u,
        {
            if !visited[u] {
                all = false;
            }
            u += 1;
        }
        proof {
            if all {
                assert(connected(adj));
            } else {
                let w = choose|w: int| 0 <= w < n && !visited@[w];
                if connected(adj) {
                    let s = Set::new(|v: usize| v < n && visited@[v as int]);
                    assert(s.contains(0usize));
                    assert forall|a: usize, b: usize|
                        #[trigger] s.contains(a) && #[trigger] adjacent(
                            adj,
                            a as int,
                            b as int,
                        ) implies s.contains(b) by {
                        assert(processed.contains(a) || queue@.contains(a));
                        let k = choose|k: int|
                            0 <= k < adj[a as int].len() && adj[a as int][k] == b;
                        assert(visited@[(adj[a as int][k]) as int]);
                    }
                    assert(connected_to_zero(adj, w as usize));
                    let p = choose|p: Seq<usize>|
                        is_path(adj, p) && p.first() == 0usize && p.last() == (w as usize);
                    lemma_path_stays_in_closed_set(adj, s, p);
                }
            }
        }
        all
    }

    /// Seed a coloring by a breadth-first sweep from node 0 over a connected
    /// graph. Each visited node takes the first color, in the fixed order,
    /// that no colored neighbor holds; when every color is taken, a random
    /// color of the full budget is chosen instead, deliberately accepting a
    /// conflict so that every node ends up assigned. The result assigns every
    /// node a color of the budget; node 0 is visited first and always takes
    /// red; and on a graph whose every degree is below the budget, first fit
    /// always finds a free color, so the seed is conflict free. In general
    /// the seed need not be conflict free.
    pub fn naive_coloring(&self, num_colors: NumColors, rng: &mut RandomSource) -> (r:
        GraphColoring)
        requires
            self.wf(),
            self.adj().len() >= 1,
            connected(self.adj()),
        ensures
            full_coloring(self.adj(), r@),
            coloring_within(self.adj().len() as int, r@, num_colors),
            r@.contains_key(0usize) && r@[0usize] == Color::Red,
            (forall|u: int|
                0 <= u < self.adj().len() ==> self.adj()[u].len() < budget_size(num_colors))
                ==> total_conflicts_spec(self.adj(), r@) == 0,
    {
        let n = self.node_count();
        let mut coloring: GraphColoring = HashMap::new();
        let mut visited: Vec<bool> = Vec::new();
        let mut i: usize = 0;
        while i < n
            invariant
                i <= n,
                visited@.len() == i,
                forall|u: int| 0 <= u < i ==> !visited@[u],
            decreases n - i,
        {
            visited.push(false);
            i += 1;
        }
        let mut queue: VecDeque<usize> = VecDeque::new();
        visited.set(0, true);
        proof {
            lemma_count_marked_le_len(visited@);
        }
        queue.push_back(0);
        let ghost adj = self.adj();
        while queue.len() != 0
            invariant
                self.wf(),
                adj == self.adj(),
                n == adj.len(),
                n >= 1,
                visited@.len() == n,
                visited@[0],
                count_marked(visited@) <= n,
                forall|u: usize|
                    #[trigger] coloring@.contains_key(u) ==> u < n && visited@[u as int]
                        && color_in_budget(coloring@[u], num_colors),
                forall|i: int|
                    0 <= i < queue@.len() ==> (#[trigger] queue@[i]) < n
                        && visited@[queue@[i] as int],
                forall|u: usize|
                    u < n && visited@[u as int] ==> coloring@.contains_key(u)
                        || queue@.contains(u),
                forall|u: usize, t: int|
                    #[trigger] coloring@.contains_key(u) && 0 <= t < adj[u as int].len()
                        ==> visited@[(#[trigger] adj[u as int][t]) as int],
                coloring@.contains_key(0usize) ==> coloring@[0usize] == Color::Red,
                coloring@.contains_key(0usize) ==> !queue@.contains(0usize),
                !coloring@.contains_key(0usize) ==> (coloring@ =~= Map::empty() && queue@ =~= (
                seq![0usize])),
                (forall|u: int| 0 <= u < n ==> adj[u].len() < budget_size(num_colors))
                    ==> partial_conflict_free(adj, coloring@),
            decreases 2 * (n - count_marked(visited@)) + queue@.len(),
        {
            let ghost qpre = queue@;
            let idx = queue.pop_front().unwrap();
            let ghost qafter = queue@;
            let ghost m_pre = coloring@;
            let choices = self.choices_at(idx, &coloring, num_colors);
            let col = if choices.red {
                Color::Red
            } else if choices.green {
                Color::Green
            } else if choices.blue {
                Color::Blue
            } else if choices.yellow {
                Color::Yellow
            } else {
                Color::rand_from_choices(Choices::new(num_colors), rng)
            };
            proof {
                if choices.red {
                    assert(choices.legal(Color::Red));
                } else if choices.green {
                    assert(choices.legal(Color::Green));
                } else if choices.blue {
                    assert(choices.legal(Color::Blue));
                } else if choices.yellow {
                    assert(choices.legal(Color::Yellow));
                }
                assert(color_in_budget(col, num_colors));
                // node 0 is popped first, before anything is colored, and
                // first-fit then takes red
                if !m_pre.contains_key(0usize) {
                    assert(idx == qpre[0]);
                    assert(qpre[0] == 0usize);
                    assert(!crate::coloring::neighbor_has_color(
                        adj,
                        m_pre,
                        idx as int,
                        Color::Red,
                    ));
                    assert(choices.legal(Color::Red));
                    assert(col == Color::Red);
                }
            }
            coloring.insert(idx, col);
            proof {
                // with every degree below the budget, first-fit always finds
                // a color no neighbor carries, so no conflict ever enters
                if forall|u: int| 0 <= u < n ==> adj[u].len() < budget_size(num_colors) {
                    if !choices.red && !choices.green && !choices.blue && !choices.yellow {
                        lemma_budget_color_free(adj, m_pre, idx as int, num_colors);
                        let cfree = choose|c: Color|
                            color_in_budget(c, num_colors) && !crate::coloring::neighbor_has_color(
                                adj,
                                m_pre,
                                idx as int,
                                c,
                            );
                        assert(choices.legal(cfree));
                        assert(false);
                    }
                    assert(choices.legal(col));
                    assert(!crate::coloring::neighbor_has_color(adj, m_pre, idx as int, col));
                    lemma_insert_keeps_conflict_free(adj, m_pre, idx, col);
                }
                // node 0 never returns to the queue, so its color stands
                if m_pre.contains_key(0usize) {
                    assert(idx != 0usize) by {
                        assert(qpre.contains(idx)) by {
                            assert(qpre[0] == idx);
                        }
                    }
                    assert(coloring@[0usize] == m_pre[0usize]);
                }
            }
            let ghost vis1 = visited@;
            self.mark_and_enqueue(idx, &mut visited, &mut queue);
            proof {
                lemma_count_marked_le_len(visited@);
                assert forall|u: usize| u < n && visited@[u as int] implies coloring@.contains_key(
                    u,
                ) || queue@.contains(u) by {
                    if !vis1[u as int] {
                        assert(queue@.contains(u));
                    } else if !coloring@.contains_key(u) {
                        assert(qpre.contains(u));
                        let j = choose|j: int| 0 <= j < qpre.len() && qpre[j] == u;
                        assert(j != 0);
                        assert(qafter[j - 1] == u);
                        assert(qafter.contains(u));
                        assert(queue@.contains(u));
                    }
                }
                assert(!queue@.contains(0usize)) by {
                    if queue@.contains(0usize) {
                        let j = choose|j: int| 0 <= j < queue@.len() && queue@[j] == 0usize;
                        assert(qafter.contains(0usize) || !vis1[0]);
                        let t = choose|t: int| 0 <= t < qafter.len() && qafter[t] == 0usize;
                        assert(qpre[t + 1] == 0usize);
                        assert(qpre.contains(0usize));
                        if m_pre.contains_key(0usize) {
                        } else {
                            assert(qpre =~= (seq![0usize]));
                            assert(t + 1 < 1);
                        }
                    }
                }
            }
        }
        proof {
            let s = Set::new(|u: usize| coloring@.contains_key(u));
            assert(s.contains(0usize));
            assert forall|u: usize, v: usize|
                #[trigger] s.contains(u) && #[trigger] adjacent(adj, u as int, v as int) implies s.contains(
                v,
            ) by {
                let k = choose|k: int| 0 <= k < adj[u as int].len() && adj[u as int][k] == v;
                assert(visited@[(adj[u as int][k]) as int]);
                assert(visited@[v as int]);
                assert(coloring@.contains_key(v) || queue@.contains(v));
            }
            assert forall|u: usize| u < n implies coloring@.contains_key(u) by {
                assert(connected_to_zero(adj, u));
                let p = choose|p: Seq<usize>|
                    is_path(adj, p) && p.first() == 0usize && p.last() == u;
                lemma_path_stays_in_closed_set(adj, s, p);
            }
            assert(coloring@.contains_key(0usize));
            if forall|u: int| 0 <= u < n ==> adj[u].len() < budget_size(num_colors) {
                crate::constructive::lemma_conflict_free_total_zero(adj, coloring@);
            }
        }
        coloring
    }
}

} // verus!
