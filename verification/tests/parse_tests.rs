use lib::posmap::PosMap;
use lib::display::check_drawable;
use lib::parse::piece_kind_of;
use lib::puzzle::{parse_cell, parse_puzzle, parse_puzzle_checked, CellKind, Puzzle};
use lib::solver::PieceKind;
use lib::simulation::{check_sim_ready, check_wf};
use lib::types::{Direction, SwitchConfig, TrackType};

const README_PUZZLE: &str = "\
# Two cars merging via a switch
SIZE 6 3

GRID
. . . . . .
_ _ _ _ _ _
_ _ _ _ _ .

TRAINS
# id row col dir color
1 1 0 E 1
2 2 0 E 1

CABOOSES
# color row col entry_dir
1 1 5 W

PIECES
straight 5
curve 1
switch 1
";

fn parse_err(text: &str) -> String {
    match parse_puzzle(text) {
        Ok(_) => panic!("expected an error"),
        Err(e) => e.0,
    }
}

#[test]
fn parses_readme_puzzle() {
    let p: Puzzle = parse_puzzle(README_PUZZLE).unwrap();
    assert_eq!(p.cols, 6);
    assert_eq!(p.rows, 3);
    assert_eq!(p.grid.len(), 3);
    assert_eq!(p.grid[0], vec![CellKind::Wall; 6]);
    assert_eq!(p.grid[1][0], CellKind::Terminal);
    assert_eq!(p.grid[1][5], CellKind::Terminal);
    assert_eq!(p.grid[2][0], CellKind::Terminal);
    assert_eq!(p.grid[1][3], CellKind::Placeable);
    assert_eq!(p.grid[2][5], CellKind::Wall);
    assert_eq!(p.cars.len(), 2);
    assert_eq!((p.cars[1].id, p.cars[1].row, p.cars[1].col, p.cars[1].dir, p.cars[1].color), (2, 2, 0, Direction::East, 1));
    assert_eq!(p.cabooses.len(), 1);
    assert_eq!(p.cabooses[0].entry_side, Direction::West);
    assert_eq!(p.inventory.straight, 5);
    assert_eq!(p.inventory.curve, 1);
    assert_eq!(p.inventory.switch, 1);
    assert_eq!(p.inventory.crossing, 0);
}

#[test]
fn parses_fixed_pieces_and_tunnels() {
    let text = "SIZE 4 2\nGRID\nH Ta YWN X\nNE SW . Ta\nTUNNELS\na 0 1 E 1 3 W\nTRAINS\n1 0 0 east 2\n";
    let p = parse_puzzle(text).unwrap();
    assert_eq!(p.grid[0][0], CellKind::Terminal);
    assert_eq!(p.grid[0][1], CellKind::Tunnel('a'));
    assert_eq!(
        p.grid[0][2],
        CellKind::Fixed(TrackType::Switch(SwitchConfig { trunk: Direction::West, straight: Direction::East, branch: Direction::North }))
    );
    assert_eq!(p.grid[0][3], CellKind::Fixed(TrackType::Crossing));
    assert_eq!(p.grid[1][1], CellKind::Fixed(TrackType::CurveSW));
    assert_eq!(p.tunnels.len(), 1);
    assert_eq!(p.tunnels[0].label, 'a');
    assert_eq!(p.tunnels[0].entry_pos, (0, 1));
    assert_eq!(p.tunnels[0].exit_pos, (1, 3));
    assert_eq!(p.tunnels[0].exit_facing, Direction::West);
    assert_eq!(p.cars[0].color, 2);
    assert_eq!(p.cars[0].dir, Direction::East);
}

#[test]
fn comments_blank_lines_and_case() {
    let text = "  # header\r\nSIZE 1 1   # size\r\n\r\nGRID\r\n_ # one cell\r\nPIECES\r\nStraight +3\r\nCURVE 2\r\n";
    let p = parse_puzzle(text).unwrap();
    assert_eq!(p.grid[0][0], CellKind::Placeable);
    assert_eq!(p.inventory.straight, 3);
    assert_eq!(p.inventory.curve, 2);
}

#[test]
fn piece_counts_add_up() {
    let text = "SIZE 1 1\nGRID\n_\nPIECES\nswitch 2\nswitch 5\n";
    let p = parse_puzzle(text).unwrap();
    assert_eq!(p.inventory.switch, 7);
}

#[test]
fn size_errors() {
    assert_eq!(parse_err("SIZE 3\n"), "line 1: SIZE requires two numbers");
    assert_eq!(parse_err("SIZE x 3\n"), "line 1: bad cols");
    assert_eq!(parse_err("\nSIZE 3 -1\n"), "line 2: bad rows");
    assert_eq!(parse_err("GRID\n_\n"), "line 2: SIZE must appear before GRID");
    assert_eq!(parse_err(""), "SIZE not specified");
    assert_eq!(parse_err("SIZE 2 0\n"), "SIZE not specified");
}

#[test]
fn grid_errors() {
    assert_eq!(parse_err("SIZE 2 1\nGRID\n_ Q\n"), "line 3: unknown cell code 'Q'");
    assert_eq!(parse_err("SIZE 2 1\nGRID\n_ _ _\n"), "line 3: expected 2 cells, got 3");
    assert_eq!(parse_err("SIZE 2 2\nGRID\n_ _\n"), "expected 2 grid rows, got 1");
}

#[test]
fn train_errors() {
    let head = "SIZE 1 1\nGRID\n_\nTRAINS\n";
    assert_eq!(parse_err(&format!("{}1 0 0 E\n", head)), "line 5: TRAIN needs: id row col dir color");
    assert_eq!(parse_err(&format!("{}256 0 0 E 1\n", head)), "line 5: bad id");
    assert_eq!(parse_err(&format!("{}1 r 0 E 1\n", head)), "line 5: bad row");
    assert_eq!(parse_err(&format!("{}1 0 c E 1\n", head)), "line 5: bad col");
    assert_eq!(parse_err(&format!("{}1 0 0 Up 1\n", head)), "line 5: bad direction 'Up'");
    assert_eq!(parse_err(&format!("{}1 0 0 E -1\n", head)), "line 5: bad color");
}

#[test]
fn caboose_and_tunnel_errors() {
    let head = "SIZE 1 1\nGRID\n_\n";
    assert_eq!(parse_err(&format!("{}CABOOSES\n1 0 0\n", head)), "line 5: CABOOSE needs: color row col entry_dir");
    assert_eq!(parse_err(&format!("{}CABOOSES\nz 0 0 W\n", head)), "line 5: bad color");
    assert_eq!(parse_err(&format!("{}CABOOSES\n1 0 0 Q\n", head)), "line 5: bad direction 'Q'");
    assert_eq!(parse_err(&format!("{}TUNNELS\na 0 0 E 0 0\n", head)), "line 5: TUNNEL needs: label er ec ef xr xc xf");
    assert_eq!(parse_err(&format!("{}TUNNELS\na 0 0 Q 0 0 W\n", head)), "line 5: bad direction");
    assert_eq!(parse_err(&format!("{}TUNNELS\na 0 0 E 0 x W\n", head)), "line 5: bad col");
}

#[test]
fn pieces_errors() {
    let head = "SIZE 1 1\nGRID\n_\nPIECES\n";
    assert_eq!(parse_err(&format!("{}straight\n", head)), "line 5: PIECES needs: type count");
    assert_eq!(parse_err(&format!("{}straight many\n", head)), "line 5: bad count");
    assert_eq!(parse_err(&format!("{}Bridge 2\n", head)), "line 5: unknown piece type 'bridge'");
}

#[test]
fn content_outside_section() {
    assert_eq!(parse_err("SIZE 1 1\nhello\n"), "line 2: unexpected content outside of a section");
}

#[test]
fn parse_error_text() {
    match parse_puzzle("") {
        Err(e) => assert_eq!(e.to_string(), "Parse error: SIZE not specified"),
        Ok(_) => panic!("expected an error"),
    }
}

#[test]
fn cell_codes() {
    assert_eq!(parse_cell("."), Some(CellKind::Wall));
    assert_eq!(parse_cell("_"), Some(CellKind::Placeable));
    assert_eq!(parse_cell("V"), Some(CellKind::Fixed(TrackType::StraightV)));
    assert_eq!(parse_cell("Tb"), Some(CellKind::Tunnel('b')));
    assert_eq!(parse_cell("T"), None);
    assert_eq!(parse_cell("Tbc"), None);
    assert_eq!(parse_cell("Té"), None);
    assert_eq!(parse_cell("#"), None);
}

#[test]
fn placeable_cells_in_row_major_order() {
    let p = parse_puzzle(README_PUZZLE).unwrap();
    let cells = p.placeable_cells();
    assert_eq!(cells, vec![(1, 1), (1, 2), (1, 3), (1, 4), (2, 1), (2, 2), (2, 3), (2, 4)]);
}

#[test]
fn track_at_prefers_placements() {
    let p = parse_puzzle("SIZE 2 1\nGRID\nH _\n").unwrap();
    let mut pl: PosMap<TrackType> = PosMap::new();
    assert_eq!(p.track_at((0, 0), &pl), Some(TrackType::StraightH));
    assert_eq!(p.track_at((0, 1), &pl), None);
    pl.insert((0, 1), TrackType::CurveNE);
    pl.insert((0, 0), TrackType::StraightV);
    assert_eq!(p.track_at((0, 1), &pl), Some(TrackType::CurveNE));
    assert_eq!(p.track_at((0, 0), &pl), Some(TrackType::StraightV));
}

#[test]
fn in_bounds_checks() {
    let p = parse_puzzle("SIZE 3 2\nGRID\n_ _ _\n_ _ _\n").unwrap();
    assert!(p.in_bounds(0, 0));
    assert!(p.in_bounds(1, 2));
    assert!(!p.in_bounds(2, 0));
    assert!(!p.in_bounds(0, 3));
    assert!(!p.in_bounds(-1, 0));
    assert!(!p.in_bounds(0, -1));
}

#[test]
fn tunnels_work_both_ways_and_first_match_wins() {
    let text = "SIZE 3 1\nGRID\nTa _ Ta\nTUNNELS\na 0 0 E 0 2 E\nb 0 0 E 0 1 S\n";
    let p = parse_puzzle(text).unwrap();
    assert_eq!(p.tunnel_exit((0, 0), Direction::East), Some(((0, 2), Direction::East)));
    assert_eq!(p.tunnel_exit((0, 2), Direction::East), Some(((0, 0), Direction::East)));
    assert_eq!(p.tunnel_exit((0, 1), Direction::South), Some(((0, 0), Direction::East)));
    assert_eq!(p.tunnel_exit((0, 2), Direction::West), None);
}

#[test]
fn pos_map_operations() {
    let mut m: PosMap<bool> = PosMap::new();
    assert!(m.is_empty());
    m.insert((1, 2), true);
    m.insert((0, 0), false);
    m.insert((1, 2), false);
    assert_eq!(m.len(), 2);
    assert_eq!(m.get((1, 2)), Some(false));
    assert!(m.contains_key((0, 0)));
    m.remove((0, 0));
    assert!(!m.contains_key((0, 0)));
    assert_eq!(m.get((0, 0)), None);
    m.remove((5, 5));
    assert_eq!(m.len(), 1);
    assert_eq!(m.to_vec(), vec![((1, 2), false)]);
}

#[test]
fn checked_parse_reports_overflow_and_late_size() {
    let big = format!("SIZE 1 1\nGRID\n_\nPIECES\nstraight {}\nstraight 1\n", usize::MAX);
    assert!(parse_puzzle_checked(&big).is_none());
    // A second SIZE line widens the grid after its row was read.
    let late = "SIZE 1 1\nGRID\n_\nSIZE 3 1\nTRAINS\n1 0 2 E 1\n";
    match parse_puzzle_checked(late) {
        Some(Err(e)) => assert_eq!(e.0, "grid row 1: expected 3 cells, got 1"),
        _ => panic!("expected an error"),
    }
    match parse_puzzle_checked("SIZE 1 1\nGRID\nQ\n") {
        Some(Err(e)) => assert_eq!(e.0, "line 3: unknown cell code 'Q'"),
        _ => panic!("expected an error"),
    }
    match parse_puzzle_checked(README_PUZZLE) {
        Some(Ok(p)) => assert_eq!(p.cars.len(), 2),
        _ => panic!("expected a puzzle"),
    }
}

#[test]
fn readiness_checks() {
    let p = parse_puzzle(README_PUZZLE).unwrap();
    assert!(check_wf(&p));
    assert!(check_sim_ready(&p));
    assert!(check_drawable(&p, &PosMap::new()));
    let mut off = PosMap::new();
    off.insert((5, 0), TrackType::StraightH);
    assert!(!check_drawable(&p, &off));
    let mut short = p.clone();
    short.grid[1].pop();
    assert!(!check_wf(&short));
    assert!(!check_sim_ready(&short));
    let mut far = p.clone();
    far.cars[0].row = 0x7fff_ffff;
    assert!(!check_sim_ready(&far));
    assert!(!check_drawable(&far, &PosMap::new()));
}

#[test]
fn piece_kind_names() {
    assert_eq!(piece_kind_of("straight"), Some(PieceKind::Straight));
    assert_eq!(piece_kind_of("curve"), Some(PieceKind::Curve));
    assert_eq!(piece_kind_of("crossing"), Some(PieceKind::Crossing));
    assert_eq!(piece_kind_of("switch"), Some(PieceKind::Switch));
    assert_eq!(piece_kind_of("Switch"), None);
    assert_eq!(piece_kind_of("bridge"), None);
}

#[test]
fn a_later_size_line_leaves_rows_short_and_is_rejected() {
    assert_eq!(parse_err("SIZE 2 1\nGRID\n_ _\nSIZE 3 1\n"), "grid row 1: expected 3 cells, got 2");
    assert_eq!(parse_err("SIZE 1 1\nGRID\n_\nSIZE 2 1\n"), "grid row 1: expected 2 cells, got 1");
}


#[test]
fn extra_whitespace_and_trailing_comments_read_alike() {
    let spaced = "# Two cars merging via a switch\n  SIZE\t6   3   # columns, rows\n\t\nGRID    # the board\n.  . . . .\t.\n_ _  _ _ _ _   \n\t_ _ _ _ _ .\nTRAINS # id row col dir color\n1   1 0 E 1\n2 2\t0 E 1 # second car\nCABOOSES\n1 1 5 W#entry from the west\nPIECES\n  straight 5\ncurve  1\nswitch 1 # one switch\n";
    let a = parse_puzzle(README_PUZZLE).unwrap();
    let b = parse_puzzle(spaced).unwrap();
    assert_eq!(format!("{:?}", a), format!("{:?}", b));
}

#[test]
fn whitespace_inside_a_header_is_not_a_header() {
    let e = parse_err("SIZE 1 1\nGR ID\n_\n");
    assert_eq!(e, "line 2: unexpected content outside of a section");
}
