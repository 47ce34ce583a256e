//! Exercises the terrain map, the breadth-first search, and the connect-four
//! board with its scoring rules and minimax player.

use solvers::board::{Area, CheckDir, GameBoard, Grid, Score, Spot, Vec2 as BoardVec2};
use solvers::terrain_map::{dist, isqrt, DistMode, Status, Terrain, TerrainMap, Visit};

fn map_from(rows: &[&str], start: (usize, usize), goal: (usize, usize)) -> TerrainMap {
    let height = rows.len();
    let width = rows[0].len();
    let mut grid = Vec::new();
    for row in rows {
        let mut cells = Vec::new();
        for c in row.chars() {
            cells.push((Terrain::from(&c).unwrap(), Status::Unvisited));
        }
        grid.push(cells);
    }
    TerrainMap {
        map: grid,
        costs: Vec::new(),
        display_costs: false,
        dim: (width, height),
        start,
        goal,
    }
}

#[test]
fn terrain_parses_its_map_characters() {
    assert_eq!(Terrain::from(&'R'), Some(Terrain::Road));
    assert_eq!(Terrain::from(&'f'), Some(Terrain::Field));
    assert_eq!(Terrain::from(&'F'), Some(Terrain::Forest));
    assert_eq!(Terrain::from(&'h'), Some(Terrain::Hills));
    assert_eq!(Terrain::from(&'r'), Some(Terrain::River));
    assert_eq!(Terrain::from(&'M'), Some(Terrain::Mountains));
    assert_eq!(Terrain::from(&'W'), Some(Terrain::Water));
    assert_eq!(Terrain::from(&'x'), None);
}

#[test]
fn terrain_costs_are_fixed() {
    assert_eq!(Terrain::Road.cost(), 1);
    assert_eq!(Terrain::Field.cost(), 2);
    assert_eq!(Terrain::Forest.cost(), 4);
    assert_eq!(Terrain::Hills.cost(), 5);
    assert_eq!(Terrain::River.cost(), 7);
    assert_eq!(Terrain::Mountains.cost(), 10);
    assert_eq!(Terrain::Water.cost(), 0);
}

#[test]
fn deactivate_quiets_only_active_arrows() {
    let mut s = Status::Up(true);
    s.deactivate();
    assert_eq!(s, Status::Up(false));
    let mut p = Status::Path;
    p.deactivate();
    assert_eq!(p, Status::Path);
    let mut q = Status::Left(false);
    q.deactivate();
    assert_eq!(q, Status::Left(false));
}

#[test]
fn visit_bundles_its_fields() {
    let v = Visit::new(3, (1, 2), 9);
    assert_eq!(v.step, 3);
    assert_eq!(v.loc, (1, 2));
    assert_eq!(v.cost, 9);
}

#[test]
fn distances_come_out_exact() {
    assert_eq!(dist((0, 0), (3, 4), DistMode::TaxiCab), 7);
    assert_eq!(dist((3, 4), (0, 0), DistMode::Euclidean), 5);
    assert_eq!(dist((1, 1), (2, 3), DistMode::Euclidean), 2);
    assert_eq!(isqrt(0), 0);
    assert_eq!(isqrt(3), 1);
    assert_eq!(isqrt(4), 2);
    assert_eq!(isqrt(24), 4);
    assert_eq!(isqrt(25), 5);
}

#[test]
fn map_lookups_respect_bounds_and_water() {
    let m = map_from(&["RW", "fR"], (0, 0), (1, 1));
    assert_eq!(m.at((0, 0)), Some((Terrain::Road, Status::Unvisited)));
    assert_eq!(m.at((1, 0)), None);
    assert_eq!(m.at((2, 0)), None);
    assert_eq!(m.at((0, 1)), Some((Terrain::Field, Status::Unvisited)));
}

#[test]
fn map_moves_check_status_and_edges() {
    let mut m = map_from(&["RR", "RR"], (0, 0), (1, 1));
    assert_eq!(m.go_up(&(0, 1)), Some((0, 0)));
    assert_eq!(m.go_up(&(0, 0)), None);
    assert_eq!(m.go_right(&(0, 0)), Some((1, 0)));
    assert_eq!(m.get_left(&(1, 0)), Some((0, 0)));
    assert_eq!(m.get_down(&(0, 1)), None);
    assert!(m.at_mut((1, 0), (Terrain::Road, Status::Path)));
    assert_eq!(m.go_right(&(0, 0)), None);
    assert_eq!(m.get_right(&(0, 0)), Some((1, 0)));
    assert_eq!(m.follow((1, 0)), None);
}

#[test]
fn breadth_first_walks_back_from_the_goal() {
    let m = map_from(&["RR", "RR"], (0, 0), (1, 1));
    let r = m.breadth_first();
    assert!(r.found);
    assert_eq!(r.path.first(), Some(&(1, 1)));
    assert_eq!(r.path.last(), Some(&(0, 0)));
    assert_eq!(r.dist, 3);
    assert_eq!(r.cost, 3);
    assert!(r.pops >= 1);
}

#[test]
fn breadth_first_fails_across_water() {
    let m = map_from(&["RWR", "RWR", "RWR"], (0, 0), (2, 0));
    let r = m.breadth_first();
    assert!(!r.found);
    assert!(r.path.is_empty());
}

#[test]
fn grid_is_built_filled_and_bounded() {
    let g = Grid::<Spot>::new(&BoardVec2 { row: 2, col: 3 }).unwrap();
    assert_eq!(g.at(&BoardVec2 { row: 1, col: 2 }), Some(Spot::Empty));
    assert_eq!(g.at(&BoardVec2 { row: 2, col: 0 }), None);
    assert_eq!(g.at(&BoardVec2 { row: -1, col: 0 }), None);
    assert!(Grid::<Spot>::new(&BoardVec2 { row: 0, col: 3 }).is_none());
}

#[test]
fn grid_writes_stay_on_the_grid() {
    let mut g = Grid::<Spot>::new(&BoardVec2 { row: 2, col: 2 }).unwrap();
    assert!(g.at_mut(&BoardVec2 { row: 0, col: 1 }, Spot::X));
    assert_eq!(g.at(&BoardVec2 { row: 0, col: 1 }), Some(Spot::X));
    assert!(!g.at_mut(&BoardVec2 { row: 5, col: 0 }, Spot::O));
}

#[test]
fn pieces_fall_to_the_lowest_open_row() {
    let mut b = GameBoard::new(&BoardVec2 { row: 6, col: 7 });
    assert!(b.open_spot());
    assert!(b.drop_piece(Spot::O, 3));
    assert_eq!(b.grid.at(&BoardVec2 { row: 0, col: 3 }), Some(Spot::O));
    assert!(b.drop_piece(Spot::X, 3));
    assert_eq!(b.grid.at(&BoardVec2 { row: 1, col: 3 }), Some(Spot::X));
    assert!(!b.drop_piece(Spot::O, 9));
}

#[test]
fn a_full_column_rejects_more_pieces() {
    let mut b = GameBoard::new(&BoardVec2 { row: 4, col: 4 });
    for _ in 0..4 {
        assert!(b.drop_piece(Spot::O, 0));
    }
    assert!(!b.drop_piece(Spot::O, 0));
    assert!(b.open_spot());
}

#[test]
fn dropping_on_a_copy_leaves_the_board_alone() {
    let b = GameBoard::new(&BoardVec2 { row: 4, col: 4 });
    let nb = b.drop_piece_new_board(Spot::X, 2).unwrap();
    assert_eq!(nb.grid.at(&BoardVec2 { row: 0, col: 2 }), Some(Spot::X));
    assert_eq!(b.grid.at(&BoardVec2 { row: 0, col: 2 }), Some(Spot::Empty));
}

#[test]
fn score_line_sees_wins_and_threats() {
    let b = GameBoard::new(&BoardVec2 { row: 4, col: 4 });
    let all_o = [Spot::O, Spot::O, Spot::O, Spot::O];
    let support = [true, true, true, true];
    assert_eq!(b.score_line(&all_o, &support, &Spot::O), Score::O);
    let all_x = [Spot::X, Spot::X, Spot::X, Spot::X];
    assert_eq!(b.score_line(&all_x, &support, &Spot::O), Score::X);
    let three = [Spot::O, Spot::O, Spot::O, Spot::Empty];
    assert_eq!(
        b.score_line(&three, &support, &Spot::O),
        Score::InProgress(16)
    );
    assert_eq!(
        b.score_line(&three, &support, &Spot::X),
        Score::InProgress(-16)
    );
    let unsupported = [true, true, true, false];
    assert_eq!(
        b.score_line(&three, &unsupported, &Spot::O),
        Score::InProgress(0)
    );
}

#[test]
fn an_empty_board_scores_zero() {
    let b = GameBoard::new(&BoardVec2 { row: 6, col: 7 });
    assert_eq!(b.score(Spot::X), Score::InProgress(0));
}

#[test]
fn score_area_detects_a_vertical_win() {
    let mut b = GameBoard::new(&BoardVec2 { row: 6, col: 7 });
    for _ in 0..4 {
        b.drop_piece(Spot::X, 2);
    }
    let area = Area {
        min: BoardVec2 { row: 0, col: 0 },
        max: BoardVec2 { row: 2, col: 6 },
    };
    assert_eq!(b.score_area(area, CheckDir::N, Spot::X), Score::X);
    assert_eq!(b.score(Spot::X), Score::X);
    assert_eq!(b.score(Spot::O), Score::X);
}

#[test]
fn the_bot_takes_a_winning_column() {
    let mut b = GameBoard::new(&BoardVec2 { row: 6, col: 7 });
    for _ in 0..3 {
        b.drop_piece(Spot::X, 4);
    }
    let m = b.best_move(Spot::X, 0).unwrap();
    assert_eq!(m.col, 4);
    assert_eq!(m.board.score(Spot::X), Score::X);
}

#[test]
fn best_move_is_none_only_on_a_full_board() {
    let mut b = GameBoard::new(&BoardVec2 { row: 4, col: 4 });
    for col in 0..4isize {
        for _ in 0..4 {
            // alternate pieces so that no player wins while filling
            let piece = if (col + 1) % 2 == 0 { Spot::O } else { Spot::X };
            b.drop_piece(piece, col);
        }
    }
    assert!(!b.open_spot());
    assert!(b.best_move(Spot::O, 1).is_none());
    let fresh = GameBoard::new(&BoardVec2 { row: 4, col: 4 });
    assert!(fresh.best_move(Spot::O, 1).is_some());
}

#[test]
fn lowest_cost_path_takes_the_cheap_detour() {
    let m = map_from(&["RMR", "RRR"], (0, 0), (2, 0));
    let r = m.lowest_cost_path();
    assert!(r.found);
    assert_eq!(r.cost, 5);
    assert_eq!(r.dist, 5);
    assert_eq!(r.path.first(), Some(&(2, 0)));
    assert_eq!(r.path.last(), Some(&(0, 0)));
}

#[test]
fn greedy_best_first_charges_through_the_mountains() {
    let m = map_from(&["RMR", "RRR"], (0, 0), (2, 0));
    let r = m.greedy_best_first();
    assert!(r.found);
    assert_eq!(r.dist, 3);
    assert_eq!(r.cost, 12);
}

#[test]
fn a_star_searches_find_a_path_with_its_exact_cost() {
    let m = map_from(&["RMR", "RRR"], (0, 0), (2, 0));
    let taxi = m.a_star_1();
    assert!(taxi.found);
    assert_eq!(taxi.cost, 5);
    let euclid = map_from(&["RR", "RR"], (0, 0), (1, 1)).a_star_2();
    assert!(euclid.found);
    assert_eq!(euclid.cost, 3);
    assert_eq!(euclid.dist, 3);
}

#[test]
fn best_first_searches_fail_across_water() {
    let m = map_from(&["RWR", "RWR"], (0, 0), (2, 0));
    let r = m.lowest_cost_path();
    assert!(!r.found);
    assert!(r.path.is_empty());
}
