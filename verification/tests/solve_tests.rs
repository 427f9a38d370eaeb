use lib::display::{
    counts_line, inventory_line, pieces_summary, placed_pieces, render_board, size_line, track_name, visible_len,
};
use lib::order::ordered_cells;
use lib::posmap::PosMap;
use lib::puzzle::{parse_puzzle, Puzzle};
use lib::reach::{can_reach, connectivity_ok};
use lib::simulation::{partial_simulate, simulate, SimResult};
use lib::solver::solve;
use lib::types::{Direction, SwitchConfig, TrackType};

const README_PUZZLE: &str = "\
SIZE 6 3
GRID
. . . . . .
_ _ _ _ _ _
_ _ _ _ _ .
TRAINS
1 1 0 E 1
2 2 0 E 1
CABOOSES
1 1 5 W
PIECES
straight 5
curve 1
switch 1
";

const STRAIGHT_PUZZLE: &str = "\
SIZE 4 1
GRID
_ _ _ _
TRAINS
1 0 0 E 1
CABOOSES
1 0 3 W
PIECES
straight 2
";

fn puzzle(text: &str) -> Puzzle {
    parse_puzzle(text).unwrap()
}

fn readme_solution() -> PosMap<TrackType> {
    let mut pl = PosMap::new();
    pl.insert((1, 1), TrackType::StraightH);
    pl.insert(
        (1, 2),
        TrackType::Switch(SwitchConfig { trunk: Direction::East, straight: Direction::West, branch: Direction::South }),
    );
    pl.insert((1, 3), TrackType::StraightH);
    pl.insert((1, 4), TrackType::StraightH);
    pl.insert((2, 1), TrackType::StraightH);
    pl.insert((2, 2), TrackType::CurveNW);
    pl
}

#[test]
fn straight_track_wins() {
    let p = puzzle(STRAIGHT_PUZZLE);
    let mut pl = PosMap::new();
    pl.insert((0, 1), TrackType::StraightH);
    pl.insert((0, 2), TrackType::StraightH);
    assert_eq!(simulate(&p, &pl), SimResult::Win);
}

#[test]
fn missing_track_crashes() {
    let p = puzzle(STRAIGHT_PUZZLE);
    let pl = PosMap::new();
    assert_eq!(simulate(&p, &pl), SimResult::Crash { car_color: 1, car_id: 1 });
    let mut pl2 = PosMap::new();
    pl2.insert((0, 1), TrackType::StraightV);
    assert_eq!(simulate(&p, &pl2), SimResult::Crash { car_color: 1, car_id: 1 });
}

#[test]
fn wrong_way_into_caboose_crashes() {
    let p = puzzle("SIZE 2 1\nGRID\n_ _\nTRAINS\n1 0 0 E 3\nCABOOSES\n3 0 1 E\n");
    assert_eq!(simulate(&p, &PosMap::new()), SimResult::Crash { car_color: 3, car_id: 1 });
}

#[test]
fn only_the_front_car_may_enter() {
    let p = puzzle("SIZE 2 1\nGRID\n_ _\nTRAINS\n2 0 0 E 1\nCABOOSES\n1 0 1 W\n");
    assert_eq!(simulate(&p, &PosMap::new()), SimResult::WrongOrder { car_color: 1, car_id: 2 });
}

#[test]
fn uncoupled_group_is_wrong_order() {
    let p = puzzle("SIZE 2 2\nGRID\n_ _\n_ _\nTRAINS\n1 0 0 E 1\n2 1 0 E 1\nCABOOSES\n1 0 1 W\n");
    let mut pl = PosMap::new();
    pl.insert((1, 1), TrackType::StraightH);
    assert_eq!(simulate(&p, &pl), SimResult::WrongOrder { car_color: 1, car_id: 1 });
}

#[test]
fn tunnel_back_to_start_is_a_loop() {
    let p = puzzle("SIZE 2 1\nGRID\n_ Ta\nTRAINS\n1 0 0 E 1\nTUNNELS\na 0 1 E 0 0 E\n");
    assert_eq!(simulate(&p, &PosMap::new()), SimResult::Loop);
}

#[test]
fn tunnel_teleports_to_caboose() {
    let p = puzzle("SIZE 4 2\nGRID\n_ Ta . .\n. . Ta _\nTRAINS\n1 0 0 E 1\nCABOOSES\n1 1 3 W\nTUNNELS\na 0 1 E 1 2 E\n");
    assert_eq!(simulate(&p, &PosMap::new()), SimResult::Win);
}

#[test]
fn no_cars_is_a_win() {
    let p = puzzle("SIZE 1 1\nGRID\n_\n");
    assert_eq!(simulate(&p, &PosMap::new()), SimResult::Win);
}

#[test]
fn readme_solution_wins_with_coupling() {
    let p = puzzle(README_PUZZLE);
    assert_eq!(simulate(&p, &readme_solution()), SimResult::Win);
}

#[test]
fn partial_simulation_prunes_dead_ends() {
    let p = puzzle(STRAIGHT_PUZZLE);
    let mut pl = PosMap::new();
    assert!(partial_simulate(&p, &pl));
    pl.insert((0, 1), TrackType::StraightH);
    assert!(partial_simulate(&p, &pl));
    pl.insert((0, 1), TrackType::CurveNE);
    assert!(!partial_simulate(&p, &pl));
    let walled = puzzle("SIZE 2 1\nGRID\n_ .\nTRAINS\n1 0 0 E 1\n");
    assert!(!partial_simulate(&walled, &PosMap::new()));
}

#[test]
fn reachability_through_wildcards() {
    let p = puzzle(STRAIGHT_PUZZLE);
    let mut pl = PosMap::new();
    assert!(can_reach(&p, &pl, (0, 0), (0, 3)));
    assert!(can_reach(&p, &pl, (0, 2), (0, 2)));
    assert!(connectivity_ok(&p, &pl));
    pl.insert((0, 2), TrackType::StraightV);
    assert!(!can_reach(&p, &pl, (0, 0), (0, 3)));
    assert!(!connectivity_ok(&p, &pl));
}

#[test]
fn solves_straight_puzzle() {
    let p = puzzle(STRAIGHT_PUZZLE);
    let sol = solve(&p).unwrap();
    assert_eq!(sol.len(), 2);
    assert_eq!(sol.get((0, 1)), Some(TrackType::StraightH));
    assert_eq!(sol.get((0, 2)), Some(TrackType::StraightH));
    assert_eq!(simulate(&p, &sol), SimResult::Win);
}

#[test]
fn unsolvable_puzzle_has_no_solution() {
    let p = puzzle("SIZE 4 1\nGRID\n_ _ _ _\nTRAINS\n1 0 0 E 1\nCABOOSES\n1 0 3 W\nPIECES\nstraight 1\n");
    assert!(solve(&p).is_none());
}

#[test]
fn solves_readme_puzzle() {
    let p = puzzle(README_PUZZLE);
    let sol = solve(&p).unwrap();
    assert_eq!(simulate(&p, &sol), SimResult::Win);
    let placeable = p.placeable_cells();
    let mut switches = 0;
    let mut curves = 0;
    let mut straights = 0;
    for (pos, t) in placed_pieces(&sol) {
        assert!(placeable.contains(&pos));
        match t {
            TrackType::Switch(_) => switches += 1,
            TrackType::StraightH | TrackType::StraightV => straights += 1,
            TrackType::Crossing => panic!("no crossings in the inventory"),
            _ => curves += 1,
        }
    }
    assert!(switches <= 1 && curves <= 1 && straights <= 5);
}

#[test]
fn board_of_readme_puzzle() {
    let p = puzzle(README_PUZZLE);
    let lines = render_board(&p, &PosMap::new());
    let expected = vec![
        "┌─────────────────────────┐",
        "│    │   │   │   │   │    │",
        "├────┼───┼───┼───┼───┼────┤",
        "│ →1 │ ░ │ ░ │ ░ │ ░ │ C1 │",
        "├────┼───┼───┼───┼───┼────┤",
        "│ →2 │ ░ │ ░ │ ░ │ ░ │    │",
        "└─────────────────────────┘",
    ];
    assert_eq!(lines, expected);
}

#[test]
fn board_of_readme_solution() {
    let p = puzzle(README_PUZZLE);
    let lines = render_board(&p, &readme_solution());
    assert_eq!(lines[3], "│ →1 │ ═ │ ╩ │ ═ │ ═ │ C1 │");
    assert_eq!(lines[5], "│ →2 │ ═ │ ╝ │ ░ │ ░ │    │");
}

#[test]
fn placed_pieces_in_row_major_order() {
    let pieces = placed_pieces(&readme_solution());
    let cells: Vec<(usize, usize)> = pieces.iter().map(|(p, _)| *p).collect();
    assert_eq!(cells, vec![(1, 1), (1, 2), (1, 3), (1, 4), (2, 1), (2, 2)]);
    assert_eq!(pieces[5].1, TrackType::CurveNW);
}

#[test]
fn track_names_and_widths() {
    assert_eq!(track_name(TrackType::StraightH), "StraightH (═)");
    assert_eq!(track_name(TrackType::Crossing), "Crossing (╬)");
    assert_eq!(
        track_name(TrackType::Switch(SwitchConfig { trunk: Direction::North, straight: Direction::South, branch: Direction::East })),
        "Switch"
    );
    assert_eq!(visible_len("→12"), 3);
    assert_eq!(visible_len(""), 0);
}

#[test]
fn summary_lines_of_readme_puzzle() {
    let p = puzzle(README_PUZZLE);
    assert_eq!(size_line(&p), "Puzzle  (6 cols × 3 rows)");
    assert_eq!(inventory_line(&p.inventory), "Inventory: 5 straight, 1 curve, 0 crossing, 1 switch");
    assert_eq!(counts_line(&p), "Cars: 2 | Cabooses: 1 | Tunnels: 0");
}

#[test]
fn summary_of_placed_pieces() {
    let lines = pieces_summary(&placed_pieces(&readme_solution()));
    assert_eq!(lines.len(), 7);
    assert_eq!(lines[0], "Placed 6 piece(s):");
    assert_eq!(lines[1], "  (1,1): StraightH (═)");
    assert_eq!(lines[2], "  (1,2): Switch");
    assert_eq!(lines[6], "  (2,2): CurveNW (╝)");
    assert_eq!(pieces_summary(&placed_pieces(&PosMap::new())), vec!["No pieces were needed.".to_string()]);
}

#[test]
fn cells_ordered_by_distance_from_trains_and_cabooses() {
    let p = puzzle(README_PUZZLE);
    assert_eq!(
        ordered_cells(&p),
        vec![(1, 1), (1, 4), (2, 1), (1, 2), (1, 3), (2, 2), (2, 4), (2, 3)]
    );
}

#[test]
fn trailing_car_runs_through_the_front_cars_start_cell() {
    // The rear car's path runs through the front car's start cell.
    let p = puzzle("SIZE 4 1\nGRID\n_ _ _ _\nTRAINS\n1 0 1 E 1\n2 0 0 E 1\nCABOOSES\n1 0 3 W\nPIECES\nstraight 1\n");
    let mut pl = PosMap::new();
    pl.insert((0, 2), TrackType::StraightH);
    assert_eq!(simulate(&p, &pl), SimResult::Win);
    assert!(partial_simulate(&p, &pl));
    assert!(connectivity_ok(&p, &pl));
    let sol = solve(&p).unwrap();
    assert_eq!(sol.get((0, 2)), Some(TrackType::StraightH));
    assert_eq!(sol.len(), 1);
}

#[test]
fn switch_flipped_by_another_car_first() {
    // In the run the second car flips the switch before the first one arrives.
    let text = "SIZE 4 2\nGRID\n. . _ .\n_ _ YWN .\nTRAINS\n1 1 0 E 1\n1 0 2 S 2\nCABOOSES\n1 0 2 S\n2 1 0 E\nPIECES\nstraight 1\n";
    let p = puzzle(text);
    let mut pl = PosMap::new();
    pl.insert((1, 1), TrackType::StraightH);
    assert_eq!(simulate(&p, &pl), SimResult::Win);
    assert!(partial_simulate(&p, &pl));
    assert!(partial_simulate(&p, &PosMap::new()));
    let sol = solve(&p).unwrap();
    assert_eq!(simulate(&p, &sol), SimResult::Win);
}

#[test]
fn cars_merging_through_two_switches() {
    let text = "SIZE 4 3\nGRID\n. . . .\n_ YES YWN _\n_ _ . .\nTRAINS\n1 1 0 E 1\n2 2 0 E 1\nCABOOSES\n1 1 3 W\nPIECES\ncurve 1\n";
    let p = puzzle(text);
    let mut pl = PosMap::new();
    pl.insert((2, 1), TrackType::CurveNW);
    assert_eq!(simulate(&p, &pl), SimResult::Win);
    assert!(partial_simulate(&p, &pl));
    let sol = solve(&p).unwrap();
    assert_eq!(simulate(&p, &sol), SimResult::Win);
}

#[test]
fn connectivity_accepts_any_caboose_of_the_color() {
    let p = puzzle("SIZE 5 1\nGRID\n_ _ _ _ _\nTRAINS\n1 0 2 E 1\nCABOOSES\n1 0 4 W\n1 0 0 E\n");
    let mut pl = PosMap::new();
    pl.insert((0, 3), TrackType::StraightV);
    assert!(!can_reach(&p, &pl, (0, 2), (0, 4)));
    assert!(can_reach(&p, &pl, (0, 2), (0, 0)));
    assert!(connectivity_ok(&p, &pl));
    pl.insert((0, 1), TrackType::StraightV);
    assert!(!connectivity_ok(&p, &pl));
}

#[test]
fn reachability_through_tunnels() {
    let p = puzzle("SIZE 4 2\nGRID\n_ Ta . .\n. . Ta _\nTRAINS\n1 0 0 E 1\nCABOOSES\n1 1 3 W\nTUNNELS\na 0 1 E 1 2 E\n");
    let pl = PosMap::new();
    assert!(can_reach(&p, &pl, (0, 0), (1, 3)));
    assert!(!can_reach(&p, &pl, (0, 0), (0, 2)));
    assert!(connectivity_ok(&p, &pl));
}

#[test]
fn cars_without_a_caboose_pass_the_connectivity_check() {
    let p = puzzle("SIZE 3 1\nGRID\n_ . _\nTRAINS\n1 0 0 E 2\nCABOOSES\n1 0 2 W\n");
    assert!(connectivity_ok(&p, &PosMap::new()));
}
