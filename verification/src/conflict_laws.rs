//! The counting laws of conflict accounting: the halved per-node sum counts
//! every violated edge exactly once, and the sum does not depend on the
//! order the nodes are visited in.

use vstd::prelude::*;
use vstd::relations::injective_on;
use vstd::set_lib::{lemma_len_subset, lemma_map_size, lemma_set_disjoint_lens};
use vstd::seq_lib::{commutative_foldr, lemma_fold_right_permutation};
use crate::color_graph::{adjacent, adj_wf};
use crate::coloring::{conflict_sum, conflicts_at_spec, count_same, total_conflicts_spec};
use crate::colors::Color;

verus! {

/// Nodes `u` and `v` are joined by an edge and both carry the same color.
pub open spec fn conflict_pair(adj: Seq<Seq<usize>>, m: Map<usize, Color>, u: int, v: int) -> bool {
    &&& adjacent(adj, u, v)
    &&& m.contains_key(u as usize)
    &&& m.contains_key(v as usize)
    &&& m[u as usize] == m[v as usize]
}

/// The violated edges, each once, as the ordered pair of its endpoints.
pub open spec fn conflict_pairs(adj: Seq<Seq<usize>>, m: Map<usize, Color>) -> Set<(int, int)> {
    Set::new(|p: (int, int)| p.0 < p.1 && conflict_pair(adj, m, p.0, p.1))
}

/// Both directed readings of the violated edges whose first endpoint lies
/// below `n`.
spec fn ordered_conflicts(adj: Seq<Seq<usize>>, m: Map<usize, Color>, n: int) -> Set<(int, int)> {
    Set::new(|p: (int, int)| 0 <= p.0 < n && conflict_pair(adj, m, p.0, p.1))
}

/// The directed violated edges leaving one node.
spec fn row_set(adj: Seq<Seq<usize>>, m: Map<usize, Color>, u: int) -> Set<(int, int)> {
    Set::new(|p: (int, int)| p.0 == u && conflict_pair(adj, m, u, p.1))
}

/// The members of a list that carry the color `c`.
spec fn same_set(m: Map<usize, Color>, c: Color, s: Seq<usize>) -> Set<usize> {
    Set::new(|v: usize| s.contains(v) && m.contains_key(v) && m[v] == c)
}

/// On a duplicate-free list, the count of same-colored entries is the size
/// of the set of same-colored members.
proof fn lemma_count_same_is_card(m: Map<usize, Color>, c: Color, s: Seq<usize>)
    requires
        forall|i: int, j: int| 0 <= i < j < s.len() ==> s[i] != s[j],
    ensures
        same_set(m, c, s).finite(),
        count_same(m, c, s) == same_set(m, c, s).len(),
    decreases s.len(),
{
    if s.len() == 0 {
        assert(same_set(m, c, s) =~= Set::<usize>::empty());
    } else {
        let s2 = s.drop_last();
        let x = s.last();
        lemma_count_same_is_card(m, c, s2);
        assert(!s2.contains(x)) by {
            if s2.contains(x) {
                let k = choose|k: int| 0 <= k < s2.len() && s2[k] == x;
                assert(s[k] == s[s.len() - 1]);
            }
        }
        if m.contains_key(x) && m[x] == c {
            assert(same_set(m, c, s) =~= same_set(m, c, s2).insert(x)) by {
                assert forall|v: usize| same_set(m, c, s).contains(v) implies same_set(
                    m,
                    c,
                    s2,
                ).insert(x).contains(v) by {
                    if v != x {
                        let k = choose|k: int| 0 <= k < s.len() && s[k] == v;
                        assert(s2[k] == v);
                    }
                }
                assert forall|v: usize| same_set(m, c, s2).insert(x).contains(v) implies same_set(
                    m,
                    c,
                    s,
                ).contains(v) by {
                    if v == x {
                        assert(s.contains(x)) by {
                            assert(s[s.len() - 1] == x);
                        }
                    } else {
                        let k = choose|k: int| 0 <= k < s2.len() && s2[k] == v;
                        assert(s[k] == v);
                    }
                }
            }
            assert(!same_set(m, c, s2).contains(x));
        } else {
            assert(same_set(m, c, s) =~= same_set(m, c, s2)) by {
                assert forall|v: usize| same_set(m, c, s).contains(v) implies same_set(
                    m,
                    c,
                    s2,
                ).contains(v) by {
                    let k = choose|k: int| 0 <= k < s.len() && s[k] == v;
                    assert(v != x);
                    assert(s2[k] == v);
                }
                assert forall|v: usize| same_set(m, c, s2).contains(v) implies same_set(
                    m,
                    c,
                    s,
                ).contains(v) by {
                    let k = choose|k: int| 0 <= k < s2.len() && s2[k] == v;
                    assert(s[k] == v);
                }
            }
        }
    }
}

/// The directed violated edges leaving one node number exactly the node's
/// conflict count.
proof fn lemma_row_card(adj: Seq<Seq<usize>>, m: Map<usize, Color>, u: int)
    requires
        adj_wf(adj),
        0 <= u < adj.len(),
    ensures
        row_set(adj, m, u).finite(),
        row_set(adj, m, u).len() == conflicts_at_spec(adj, m, u),
{
    let uu = u as usize;
    if !m.contains_key(uu) {
        assert(row_set(adj, m, u) =~= Set::<(int, int)>::empty());
    } else {
        let c = m[uu];
        let vs = same_set(m, c, adj[u]);
        lemma_count_same_is_card(m, c, adj[u]);
        let f = |v: usize| (u, v as int);
        assert(vs.map(f) =~= row_set(adj, m, u)) by {
            assert forall|p: (int, int)| vs.map(f).contains(p) implies row_set(
                adj,
                m,
                u,
            ).contains(p) by {
                let v = choose|v: usize| vs.contains(v) && p == f(v);
                let k = choose|k: int| 0 <= k < adj[u].len() && adj[u][k] == v;
                assert(adj[u][k] < adj.len());
                assert(adjacent(adj, u, v as int));
            }
            assert forall|p: (int, int)| row_set(adj, m, u).contains(p) implies vs.map(
                f,
            ).contains(p) by {
                let v = (p.1) as usize;
                assert(0 <= p.1 < adj.len());
                assert(adj[u].contains(v));
                assert(m.contains_key(v) && m[v] == c);
                assert(v as int == p.1);
                assert(vs.contains(v) && p == f(v));
            }
        }
        assert(injective_on(f, vs));
        lemma_map_size(vs, row_set(adj, m, u), f);
    }
}

/// The per-node conflict counts of the first `n` nodes sum to the number of
/// directed violated edges leaving them.
proof fn lemma_conflict_sum_is_card(adj: Seq<Seq<usize>>, m: Map<usize, Color>, n: int)
    requires
        adj_wf(adj),
        0 <= n <= adj.len(),
    ensures
        ordered_conflicts(adj, m, n).finite(),
        ordered_conflicts(adj, m, n).len() == conflict_sum(adj, m, n),
    decreases n,
{
    if n == 0 {
        assert(ordered_conflicts(adj, m, 0) =~= Set::<(int, int)>::empty());
    } else {
        lemma_conflict_sum_is_card(adj, m, n - 1);
        lemma_row_card(adj, m, n - 1);
        let a = ordered_conflicts(adj, m, n - 1);
        let b = row_set(adj, m, n - 1);
        assert(ordered_conflicts(adj, m, n) =~= a + b);
        assert(a.disjoint(b));
        lemma_set_disjoint_lens(a, b);
    }
}

/// A node is never joined to itself.
proof fn lemma_no_self_pair(adj: Seq<Seq<usize>>, m: Map<usize, Color>, u: int)
    requires
        adj_wf(adj),
    ensures
        !conflict_pair(adj, m, u, u),
{
    if conflict_pair(adj, m, u, u) {
        assert(0 <= u < adj.len());
        assert(adj[u].contains(u as usize));
        let k = choose|k: int| 0 <= k < adj[u].len() && adj[u][k] == (u as usize);
        assert(adj[u][k] != u);
        assert(u as usize as int == u);
        assert(false);
    }
}

/// A violated edge is violated read from either end.
proof fn lemma_pair_symmetric(adj: Seq<Seq<usize>>, m: Map<usize, Color>, u: int, v: int)
    requires
        adj_wf(adj),
        conflict_pair(adj, m, u, v),
    ensures
        conflict_pair(adj, m, v, u),
{
    assert(adjacent(adj, v, u));
}

/// The total conflict count names every violated edge exactly once: summing
/// each node's conflicts counts each violated edge from both of its ends, so
/// the halved sum is exactly the number of violated edges.
pub proof fn lemma_total_conflicts_counts_edges_once(adj: Seq<Seq<usize>>, m: Map<usize, Color>)
    requires
        adj_wf(adj),
    ensures
        conflict_pairs(adj, m).finite(),
        conflict_sum(adj, m, adj.len() as int) == 2 * conflict_pairs(adj, m).len(),
        total_conflicts_spec(adj, m) == conflict_pairs(adj, m).len(),
{
    let n = adj.len() as int;
    let all = ordered_conflicts(adj, m, n);
    let lower = conflict_pairs(adj, m);
    lemma_conflict_sum_is_card(adj, m, n);
    assert(lower.subset_of(all)) by {
        assert forall|p: (int, int)| lower.contains(p) implies all.contains(p) by {
            assert(adjacent(adj, p.0, p.1));
        }
    }
    lemma_len_subset(lower, all);
    let swap = |p: (int, int)| (p.1, p.0);
    let upper = lower.map(swap);
    assert(injective_on(swap, lower));
    lemma_map_size(lower, upper, swap);
    assert(all =~= lower + upper) by {
        assert forall|p: (int, int)| all.contains(p) implies (lower + upper).contains(p) by {
            lemma_no_self_pair(adj, m, p.0);
            if p.0 < p.1 {
                assert(lower.contains(p));
            } else {
                lemma_pair_symmetric(adj, m, p.0, p.1);
                assert(lower.contains((p.1, p.0)));
                assert(p == swap((p.1, p.0)));
                assert(upper.contains(p));
            }
        }
        assert forall|p: (int, int)| (lower + upper).contains(p) implies all.contains(p) by {
            if lower.contains(p) {
                assert(adjacent(adj, p.0, p.1));
            } else {
                let q = choose|q: (int, int)| lower.contains(q) && p == swap(q);
                lemma_pair_symmetric(adj, m, q.0, q.1);
                assert(adjacent(adj, p.0, p.1));
            }
        }
    }
    assert(lower.disjoint(upper)) by {
        assert forall|p: (int, int)| lower.contains(p) implies !upper.contains(p) by {
            if upper.contains(p) {
                let q = choose|q: (int, int)| lower.contains(q) && p == swap(q);
            }
        }
    }
    lemma_set_disjoint_lens(lower, upper);
}

/// Folding the per-node conflict counts over a list of nodes, in list order.
pub open spec fn conflict_fold(adj: Seq<Seq<usize>>, m: Map<usize, Color>, order: Seq<usize>) -> int {
    order.fold_right(|u: usize, acc: int| acc + conflicts_at_spec(adj, m, u as int), 0)
}

/// The nodes 0 to n - 1 in ascending order.
pub open spec fn node_order(n: int) -> Seq<usize> {
    Seq::new(n as nat, |i: int| i as usize)
}

/// Folding over the nodes in any order that visits the same nodes the same
/// number of times gives the same conflict sum: the sum is commutative.
pub proof fn lemma_conflict_fold_order_invariant(
    adj: Seq<Seq<usize>>,
    m: Map<usize, Color>,
    o1: Seq<usize>,
    o2: Seq<usize>,
)
    requires
        o1.to_multiset() == o2.to_multiset(),
    ensures
        conflict_fold(adj, m, o1) == conflict_fold(adj, m, o2),
{
    let f = |u: usize, acc: int| acc + conflicts_at_spec(adj, m, u as int);
    assert(commutative_foldr(f)) by {
        assert forall|x: usize, y: usize, v: int| #[trigger] f(x, f(y, v)) == f(y, f(x, v)) by {}
    }
    lemma_fold_right_permutation(o1, o2, f, 0);
}

/// Folding the counts over the nodes in ascending order gives the sum that
/// the conflict total halves.
pub proof fn lemma_conflict_fold_natural(adj: Seq<Seq<usize>>, m: Map<usize, Color>, n: int)
    requires
        0 <= n <= usize::MAX,
    ensures
        conflict_fold(adj, m, node_order(n)) == conflict_sum(adj, m, n),
{
    lemma_conflict_fold_natural_acc(adj, m, n, 0);
}

/// Helper generalized over the fold's accumulator.
proof fn lemma_conflict_fold_natural_acc(adj: Seq<Seq<usize>>, m: Map<usize, Color>, n: int, b: int)
    requires
        0 <= n <= usize::MAX,
    ensures
        node_order(n).fold_right(
            |u: usize, acc: int| acc + conflicts_at_spec(adj, m, u as int),
            b,
        ) == b + conflict_sum(adj, m, n),
    decreases n,
{
    let f = |u: usize, acc: int| acc + conflicts_at_spec(adj, m, u as int);
    if n == 0 {
        assert(node_order(0).fold_right(f, b) == b);
    } else {
        assert(node_order(n).drop_last() =~= node_order(n - 1));
        assert(node_order(n).last() == (n - 1) as usize);
        lemma_conflict_fold_natural_acc(adj, m, n - 1, f((n - 1) as usize, b));
    }
}

} // verus!
