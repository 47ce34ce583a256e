//! The escalation driver: run one solver family at budgets two, three and
//! four in order, and stop at the first complete result. A later budget is
//! tried only after an incomplete attempt, never after a complete one.

use vstd::prelude::*;
use crate::color_graph::ColorGraph;
use crate::coloring::{coloring_within, full_coloring, is_complete_spec, GraphColoring};
use crate::colors::NumColors;
use crate::constructive::{fresh_choices, partial_conflict_free, solve_from};
use crate::rand_source::RandomSource;
use crate::seeder::connected;

verus! {

/// The budgets in escalation order.
pub open spec fn budget_ladder() -> Seq<NumColors> {
    seq![NumColors::Two, NumColors::Three, NumColors::Four]
}

/// What a whole escalation run produced.
pub struct EscalationReport {
    /// The coloring of the last attempt.
    pub coloring: GraphColoring,
    /// Whether that coloring solves the instance.
    pub complete: bool,
    /// The budgets attempted, in order: always a prefix of the ladder.
    pub budgets_tried: Vec<NumColors>,
    /// For each attempted budget, whether its attempt was complete.
    pub outcomes: Vec<bool>,
}

/// The escalation discipline: the attempted budgets are a nonempty prefix of
/// the ladder two, three, four; every attempt before the last was incomplete,
/// so no attempt ever follows a complete one; the run stops short of the full
/// ladder only on a complete result; and the reported coloring and flag are
/// those of the last attempt, within its budget.
pub open spec fn escalation_ok(adj: Seq<Seq<usize>>, r: EscalationReport) -> bool {
    &&& 1 <= r.budgets_tried@.len() <= 3
    &&& r.budgets_tried@ == budget_ladder().take(r.budgets_tried@.len() as int)
    &&& r.outcomes@.len() == r.budgets_tried@.len()
    &&& forall|i: int| 0 <= i < r.outcomes@.len() - 1 ==> !(#[trigger] r.outcomes@[i])
    &&& r.outcomes@.last() == r.complete
    &&& r.complete == is_complete_spec(adj, r.coloring@)
    &&& r.budgets_tried@.len() < 3 ==> r.complete
    &&& coloring_within(adj.len() as int, r.coloring@, r.budgets_tried@.last())
}

impl ColorGraph {
    /// Run the local search at budgets two, three, four in order, stopping
    /// at the first complete coloring. The result is always a full coloring.
    pub fn local_search_itr(&self, rng: &mut RandomSource) -> (r: EscalationReport)
        requires
            self.wf(),
            self.adj().len() >= 1,
            connected(self.adj()),
        ensures
            escalation_ok(self.adj(), r),
            full_coloring(self.adj(), r.coloring@),
    {
        let mut budgets: Vec<NumColors> = Vec::new();
        let mut outcomes: Vec<bool> = Vec::new();
        budgets.push(NumColors::Two);
        let two = self.local_search(NumColors::Two, rng);
        outcomes.push(two.complete);
        if two.complete {
            proof {
                assert(budgets@ =~= budget_ladder().take(1));
            }
            return EscalationReport {
                coloring: two.coloring,
                complete: true,
                budgets_tried: budgets,
                outcomes,
            };
        }
        budgets.push(NumColors::Three);
        let three = self.local_search(NumColors::Three, rng);
        outcomes.push(three.complete);
        if three.complete {
            proof {
                assert(budgets@ =~= budget_ladder().take(2));
            }
            return EscalationReport {
                coloring: three.coloring,
                complete: true,
                budgets_tried: budgets,
                outcomes,
            };
        }
        budgets.push(NumColors::Four);
        let four = self.local_search(NumColors::Four, rng);
        outcomes.push(four.complete);
        proof {
            assert(budgets@ =~= budget_ladder().take(3));
        }
        EscalationReport {
            coloring: four.coloring,
            complete: four.complete,
            budgets_tried: budgets,
            outcomes,
        }
    }

    /// Run the constructive solver at budgets two, three, four in order,
    /// stopping at the first complete coloring. The result is always
    /// conflict free, full only when complete. The whole run is
    /// deterministic: each attempt's outcome, and the returned coloring,
    /// are exactly what `solve_from` reaches from the fresh state of the
    /// attempted budget.
    pub fn depth_first_search_itr(&self) -> (r: EscalationReport)
        requires
            self.wf(),
        ensures
            escalation_ok(self.adj(), r),
            partial_conflict_free(self.adj(), r.coloring@),
            forall|i: int|
                0 <= i < r.budgets_tried@.len() ==> (#[trigger] r.outcomes@[i])
                    == is_complete_spec(
                    self.adj(),
                    solve_from(
                        self.adj(),
                        fresh_choices(self.adj().len() as int, budget_ladder()[i]),
                        Map::empty(),
                        (self.adj().len() + 1) as nat,
                    ).0,
                ),
            r.coloring@ == solve_from(
                self.adj(),
                fresh_choices(self.adj().len() as int, r.budgets_tried@.last()),
                Map::empty(),
                (self.adj().len() + 1) as nat,
            ).0,
    {
        let mut budgets: Vec<NumColors> = Vec::new();
        let mut outcomes: Vec<bool> = Vec::new();
        budgets.push(NumColors::Two);
        let two = self.depth_first_search(NumColors::Two);
        outcomes.push(two.complete);
        if two.complete {
            proof {
                assert(budgets@ =~= budget_ladder().take(1));
            }
            return EscalationReport {
                coloring: two.coloring,
                complete: true,
                budgets_tried: budgets,
                outcomes,
            };
        }
        budgets.push(NumColors::Three);
        let three = self.depth_first_search(NumColors::Three);
        outcomes.push(three.complete);
        if three.complete {
            proof {
                assert(budgets@ =~= budget_ladder().take(2));
            }
            return EscalationReport {
                coloring: three.coloring,
                complete: true,
                budgets_tried: budgets,
                outcomes,
            };
        }
        budgets.push(NumColors::Four);
        let four = self.depth_first_search(NumColors::Four);
        outcomes.push(four.complete);
        proof {
            assert(budgets@ =~= budget_ladder().take(3));
        }
        EscalationReport {
            coloring: four.coloring,
            complete: four.complete,
            budgets_tried: budgets,
            outcomes,
        }
    }
}

} // verus!
