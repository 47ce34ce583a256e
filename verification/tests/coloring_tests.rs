//! Exercises the graph coloring engine end to end: choice sets, graphs built
//! through the CSR structure, conflict accounting, both solvers, and the
//! escalation driver.

use std::collections::HashMap;
use solvers::color_graph::{ColorGraph, GraphError};
use solvers::colors::{Choices, Color, NumColors};
use solvers::coloring::GraphColoring;
use solvers::rand_source::RandomSource;

fn triangle() -> ColorGraph {
    ColorGraph::from_edges(3, &vec![(0, 1), (1, 2), (2, 0)]).unwrap()
}

fn four_cycle() -> ColorGraph {
    ColorGraph::from_edges(4, &vec![(0, 1), (1, 2), (2, 3), (3, 0)]).unwrap()
}

#[test]
fn choices_new_matches_budget() {
    let two = Choices::new(NumColors::Two);
    assert!(two.red && two.green && !two.blue && !two.yellow);
    assert_eq!(two.amount(), 2);
    let three = Choices::new(NumColors::Three);
    assert!(three.blue && !three.yellow);
    assert_eq!(three.amount(), 3);
    let four = Choices::new(NumColors::Four);
    assert_eq!(four.amount(), 4);
    assert!(!four.stuck());
}

#[test]
fn choices_remove_is_idempotent() {
    let mut once = Choices::new(NumColors::Four);
    once.remove(Color::Blue);
    let mut twice = Choices::new(NumColors::Four);
    twice.remove(Color::Blue);
    twice.remove(Color::Blue);
    assert_eq!(once, twice);
    assert_eq!(once.amount(), 3);
}

#[test]
fn choices_stuck_after_all_removed() {
    let mut c = Choices::new(NumColors::Two);
    c.remove(Color::Red);
    assert!(!c.stuck());
    c.remove(Color::Green);
    assert!(c.stuck());
    assert_eq!(c.amount(), 0);
}

#[test]
fn choices_as_arr_lists_fixed_order() {
    let c = Choices::new(NumColors::Three);
    let arr = c.as_arr();
    assert_eq!(arr[0], (true, Color::Red));
    assert_eq!(arr[1], (true, Color::Green));
    assert_eq!(arr[2], (true, Color::Blue));
    assert_eq!(arr[3], (false, Color::Yellow));
}

#[test]
fn sampling_returns_the_only_legal_color() {
    let mut rng = RandomSource::from_seed(7);
    let mut c = Choices::new(NumColors::Four);
    c.remove(Color::Red);
    c.remove(Color::Green);
    c.remove(Color::Yellow);
    for _ in 0..20 {
        assert_eq!(Color::rand_from_choices(c, &mut rng), Color::Blue);
    }
}

#[test]
fn graph_accessors_reflect_the_edges() {
    let g = four_cycle();
    assert_eq!(g.node_count(), 4);
    assert_eq!(g.edge_count(), 4);
    assert_eq!(g.degree(0), 2);
    assert_eq!(g.neighbors(0), vec![1, 3]);
    assert_eq!(g.neighbors(2), vec![1, 3]);
}

#[test]
fn duplicate_and_reversed_edges_collapse() {
    let g = ColorGraph::from_edges(3, &vec![(0, 1), (1, 0), (0, 1)]).unwrap();
    assert_eq!(g.edge_count(), 1);
    assert_eq!(g.neighbors(0), vec![1]);
    assert_eq!(g.neighbors(2), Vec::<usize>::new());
    assert_eq!(g.degree(2), 0);
}

#[test]
fn bad_graphs_are_rejected() {
    assert_eq!(
        ColorGraph::from_edges(0, &vec![]).err(),
        Some(GraphError::NoNodes)
    );
    assert_eq!(
        ColorGraph::from_edges(2, &vec![(1, 1)]).err(),
        Some(GraphError::BadEdge)
    );
    assert_eq!(
        ColorGraph::from_edges(2, &vec![(0, 2)]).err(),
        Some(GraphError::BadEdge)
    );
}

#[test]
fn matrix_builds_the_expected_graph() {
    let rows = vec![
        vec![false, true, false],
        vec![false, false, true],
        vec![false, false, false],
    ];
    let g = ColorGraph::from_matrix(&rows).unwrap();
    assert_eq!(g.node_count(), 3);
    assert_eq!(g.edge_count(), 2);
    assert_eq!(g.neighbors(1), vec![0, 2]);
}

#[test]
fn bad_matrices_are_rejected() {
    assert_eq!(
        ColorGraph::from_matrix(&vec![]).err(),
        Some(GraphError::NoNodes)
    );
    assert_eq!(
        ColorGraph::from_matrix(&vec![vec![false], vec![false]]).err(),
        Some(GraphError::BadRow)
    );
    assert_eq!(
        ColorGraph::from_matrix(&vec![vec![true]]).err(),
        Some(GraphError::BadEdge)
    );
}

#[test]
fn conflicts_count_each_violated_edge_once() {
    let g = triangle();
    let mut all_red: GraphColoring = HashMap::new();
    all_red.insert(0, Color::Red);
    all_red.insert(1, Color::Red);
    all_red.insert(2, Color::Red);
    assert_eq!(g.count_confl_idx(0, &all_red), 2);
    assert_eq!(g.count_confl(&all_red), 3);
    let mut one_clash: GraphColoring = HashMap::new();
    one_clash.insert(0, Color::Red);
    one_clash.insert(1, Color::Red);
    one_clash.insert(2, Color::Green);
    assert_eq!(g.count_confl(&one_clash), 1);
    assert!(!g.is_complete(&one_clash));
}

#[test]
fn a_proper_coloring_is_complete() {
    let g = triangle();
    let mut proper: GraphColoring = HashMap::new();
    proper.insert(0, Color::Red);
    proper.insert(1, Color::Green);
    proper.insert(2, Color::Blue);
    assert_eq!(g.count_confl(&proper), 0);
    assert!(g.is_complete(&proper));
    let mut partial: GraphColoring = HashMap::new();
    partial.insert(0, Color::Red);
    partial.insert(1, Color::Green);
    assert!(!g.is_complete(&partial));
}

#[test]
fn unassigned_node_has_no_conflicts() {
    let g = triangle();
    let mut m: GraphColoring = HashMap::new();
    m.insert(1, Color::Red);
    m.insert(2, Color::Red);
    assert_eq!(g.count_confl_idx(0, &m), 0);
}

#[test]
fn choices_at_strikes_neighbor_colors() {
    let g = triangle();
    let mut m: GraphColoring = HashMap::new();
    m.insert(1, Color::Red);
    m.insert(2, Color::Green);
    let c = g.choices_at(0, &m, NumColors::Three);
    assert!(!c.red && !c.green && c.blue && !c.yellow);
}

#[test]
fn seeder_assigns_every_node_within_budget() {
    let g = four_cycle();
    let mut rng = RandomSource::from_seed(3);
    let m = g.naive_coloring(NumColors::Two, &mut rng);
    assert_eq!(m.len(), 4);
    for u in 0..4 {
        let c = m[&u];
        assert!(c == Color::Red || c == Color::Green);
    }
}

#[test]
fn local_search_colors_a_bipartite_graph() {
    let g = four_cycle();
    let mut rng = RandomSource::from_seed(11);
    let r = g.local_search(NumColors::Two, &mut rng);
    assert!(r.complete);
    assert!(g.is_complete(&r.coloring));
    assert!(r.iterations <= solvers::local_search::MAX_ITER);
}

#[test]
fn local_search_gives_up_at_the_cap_on_a_triangle_with_two_colors() {
    let g = triangle();
    let mut rng = RandomSource::from_seed(5);
    let r = g.local_search(NumColors::Two, &mut rng);
    assert!(!r.complete);
    assert_eq!(r.iterations, solvers::local_search::MAX_ITER);
    assert_eq!(r.coloring.len(), 3);
}

#[test]
fn single_isolated_node_completes_at_once() {
    let g = ColorGraph::from_edges(1, &vec![]).unwrap();
    let mut rng = RandomSource::from_seed(1);
    let local = g.local_search(NumColors::Two, &mut rng);
    assert!(local.complete);
    assert_eq!(local.iterations, 0);
    assert_eq!(local.coloring.len(), 1);
    let constructive = g.depth_first_search(NumColors::Two);
    assert!(constructive.complete);
    assert!(!constructive.stuck);
    assert_eq!(constructive.coloring.len(), 1);
}

#[test]
fn constructive_two_colors_a_four_cycle() {
    let g = four_cycle();
    let r = g.depth_first_search(NumColors::Two);
    assert!(r.complete);
    assert!(!r.stuck);
    assert!(g.is_complete(&r.coloring));
    for u in 0..4 {
        let c = r.coloring[&u];
        assert!(c == Color::Red || c == Color::Green);
    }
}

#[test]
fn constructive_is_stuck_on_a_triangle_with_two_colors() {
    let g = triangle();
    let two = g.depth_first_search(NumColors::Two);
    assert!(two.stuck);
    assert!(!two.complete);
    assert!(two.coloring.len() < 3);
    let three = g.depth_first_search(NumColors::Three);
    assert!(three.complete);
    assert!(g.is_complete(&three.coloring));
}

#[test]
fn constructive_step_commits_one_node_and_never_revises() {
    let g = triangle();
    let mut choices = vec![Choices::new(NumColors::Three); 3];
    let mut coloring: GraphColoring = HashMap::new();
    let first = g.constructive_step(NumColors::Three, &mut choices, &mut coloring);
    assert_eq!(first, solvers::constructive::StepOutcome::Assigned);
    assert_eq!(coloring.len(), 1);
    let committed: Vec<(usize, Color)> =
        coloring.iter().map(|(k, v)| (*k, *v)).collect();
    let second = g.constructive_step(NumColors::Three, &mut choices, &mut coloring);
    assert_eq!(second, solvers::constructive::StepOutcome::Assigned);
    assert_eq!(coloring.len(), 2);
    for (k, v) in committed {
        assert_eq!(coloring[&k], v);
    }
}

#[test]
fn escalation_stops_at_the_first_complete_budget() {
    let g = four_cycle();
    let r = g.depth_first_search_itr();
    assert!(r.complete);
    assert_eq!(r.budgets_tried, vec![NumColors::Two]);
    assert_eq!(r.outcomes, vec![true]);
}

#[test]
fn escalation_climbs_past_a_failed_budget() {
    let g = triangle();
    let r = g.depth_first_search_itr();
    assert!(r.complete);
    assert_eq!(r.budgets_tried, vec![NumColors::Two, NumColors::Three]);
    assert_eq!(r.outcomes, vec![false, true]);
    assert!(g.is_complete(&r.coloring));
}

#[test]
fn escalation_reports_failure_only_after_all_budgets() {
    // the complete graph on five nodes is not four-colorable
    let mut edges = Vec::new();
    for u in 0..5usize {
        for v in (u + 1)..5usize {
            edges.push((u, v));
        }
    }
    let g = ColorGraph::from_edges(5, &edges).unwrap();
    let r = g.depth_first_search_itr();
    assert!(!r.complete);
    assert_eq!(
        r.budgets_tried,
        vec![NumColors::Two, NumColors::Three, NumColors::Four]
    );
    assert_eq!(r.outcomes, vec![false, false, false]);
}

#[test]
fn local_search_escalation_solves_a_triangle() {
    let g = triangle();
    let mut rng = RandomSource::from_seed(42);
    let r = g.local_search_itr(&mut rng);
    assert!(r.complete);
    assert!(r.budgets_tried.len() >= 2);
    assert_eq!(r.budgets_tried[0], NumColors::Two);
    assert!(!r.outcomes[0]);
    assert!(g.is_complete(&r.coloring));
}

#[test]
fn complete_colorings_separate_every_edge() {
    let g = triangle();
    let r = g.depth_first_search(NumColors::Three);
    assert!(r.complete);
    for u in 0..3usize {
        for v in g.neighbors(u) {
            assert_ne!(r.coloring[&u], r.coloring[&v]);
        }
    }
}

#[test]
fn connectivity_is_detected() {
    let path = ColorGraph::from_edges(3, &vec![(0, 1), (1, 2)]).unwrap();
    assert!(path.is_connected());
    let split = ColorGraph::from_edges(4, &vec![(0, 1), (2, 3)]).unwrap();
    assert!(!split.is_connected());
    let lone = ColorGraph::from_edges(1, &vec![]).unwrap();
    assert!(lone.is_connected());
}

#[test]
fn the_constructive_solver_is_deterministic() {
    let g = four_cycle();
    let a = g.depth_first_search(NumColors::Two);
    let b = g.depth_first_search(NumColors::Two);
    assert_eq!(a.complete, b.complete);
    for u in 0..4usize {
        assert_eq!(a.coloring.get(&u), b.coloring.get(&u));
    }
    let r = g.depth_first_search_itr();
    let s = g.depth_first_search_itr();
    assert_eq!(r.budgets_tried, s.budgets_tried);
    assert_eq!(r.outcomes, s.outcomes);
}

#[test]
fn the_four_cycle_takes_the_tie_break_coloring() {
    let g = four_cycle();
    let r = g.depth_first_search(NumColors::Two);
    assert!(r.complete);
    assert_eq!(r.coloring[&0], Color::Red);
    assert_eq!(r.coloring[&1], Color::Green);
    assert_eq!(r.coloring[&2], Color::Red);
    assert_eq!(r.coloring[&3], Color::Green);
}

#[test]
fn a_stuck_attempt_leaves_a_blocked_node() {
    let g = triangle();
    let r = g.depth_first_search(NumColors::Two);
    assert!(r.stuck);
    assert_eq!(r.coloring.len(), 2);
    // the unassigned node sees both budget colors on its neighbors
    let unassigned: Vec<usize> = (0..3).filter(|u| !r.coloring.contains_key(u)).collect();
    assert_eq!(unassigned.len(), 1);
    let u = unassigned[0];
    let colors: Vec<Color> = g.neighbors(u).iter().map(|v| r.coloring[v]).collect();
    assert!(colors.contains(&Color::Red));
    assert!(colors.contains(&Color::Green));
}

#[test]
fn the_seeder_first_fits_red_at_node_zero() {
    let g = four_cycle();
    let mut rng = RandomSource::from_seed(9);
    let m = g.naive_coloring(NumColors::Two, &mut rng);
    assert_eq!(m[&0], Color::Red);
}

#[test]
fn low_degree_graphs_seed_without_conflicts() {
    // on a path graph every degree is at most two, below the three-color budget
    let path = ColorGraph::from_edges(4, &vec![(0, 1), (1, 2), (2, 3)]).unwrap();
    let mut rng = RandomSource::from_seed(13);
    let m = path.naive_coloring(NumColors::Three, &mut rng);
    assert_eq!(path.count_confl(&m), 0);
    let r = path.local_search(NumColors::Three, &mut rng);
    assert!(r.complete);
    assert_eq!(r.iterations, 0);
    assert_eq!(r.coloring[&0], Color::Red);
}
