use lib::types::{Direction, Inventory, SwitchConfig, TrackType};

#[test]
fn opposite_is_an_involution() {
    for d in Direction::all() {
        assert_eq!(d.opposite().opposite(), d);
        assert_ne!(d.opposite(), d);
    }
    assert_eq!(Direction::North.opposite(), Direction::South);
    assert_eq!(Direction::East.opposite(), Direction::West);
}

#[test]
fn delta_of_each_direction() {
    assert_eq!(Direction::North.delta(), (-1, 0));
    assert_eq!(Direction::South.delta(), (1, 0));
    assert_eq!(Direction::East.delta(), (0, 1));
    assert_eq!(Direction::West.delta(), (0, -1));
    for d in Direction::all() {
        let (a, b) = d.delta();
        let (c, e) = d.opposite().delta();
        assert_eq!((a + c, b + e), (0, 0));
    }
}

#[test]
fn from_char_accepts_both_cases() {
    assert_eq!(Direction::from_char('n'), Some(Direction::North));
    assert_eq!(Direction::from_char('S'), Some(Direction::South));
    assert_eq!(Direction::from_char('e'), Some(Direction::East));
    assert_eq!(Direction::from_char('W'), Some(Direction::West));
    assert_eq!(Direction::from_char('x'), None);
    assert_eq!(Direction::from_char('ñ'), None);
}

#[test]
fn from_str_letters_and_names() {
    assert_eq!(Direction::from_str("N"), Some(Direction::North));
    assert_eq!(Direction::from_str("w"), Some(Direction::West));
    assert_eq!(Direction::from_str("North"), Some(Direction::North));
    assert_eq!(Direction::from_str("SOUTH"), Some(Direction::South));
    assert_eq!(Direction::from_str("east"), Some(Direction::East));
    assert_eq!(Direction::from_str("wEsT"), Some(Direction::West));
    assert_eq!(Direction::from_str(""), None);
    assert_eq!(Direction::from_str("NE"), None);
    assert_eq!(Direction::from_str("x"), None);
}

#[test]
fn from_str_uses_unicode_upper_case() {
    // The long s upper-cases to a plain S, so the name is recognised.
    assert_eq!(Direction::from_str("ſouth"), Some(Direction::South));
    // A single non-ASCII letter is no direction letter.
    assert_eq!(Direction::from_str("ñ"), None);
}

#[test]
fn direction_names_round_trip() {
    for d in Direction::all() {
        let s = d.to_string();
        assert_eq!(s.len(), 1);
        assert_eq!(Direction::from_str(&s), Some(d));
    }
    assert_eq!(Direction::North.to_string(), "N");
    assert_eq!(Direction::West.to_string(), "W");
}

#[test]
fn switch_configs_are_the_eight_valid_ones() {
    let all = SwitchConfig::all();
    assert_eq!(all.len(), 8);
    for (i, a) in all.iter().enumerate() {
        assert_eq!(a.straight, a.trunk.opposite());
        assert_ne!(a.branch, a.trunk);
        assert_ne!(a.branch, a.straight);
        for (j, b) in all.iter().enumerate() {
            if i != j {
                assert_ne!(a, b);
            }
        }
    }
}

#[test]
fn switch_routes_and_toggles() {
    let cfg = SwitchConfig { trunk: Direction::West, straight: Direction::East, branch: Direction::North };
    assert_eq!(cfg.route(Direction::West, false), Some((Direction::East, true)));
    assert_eq!(cfg.route(Direction::West, true), Some((Direction::North, true)));
    assert_eq!(cfg.route(Direction::East, false), Some((Direction::West, true)));
    assert_eq!(cfg.route(Direction::North, true), Some((Direction::West, true)));
    assert_eq!(cfg.route(Direction::South, false), None);
    assert_eq!(cfg.open_sides(), [Direction::West, Direction::East, Direction::North]);
}

#[test]
fn track_routes() {
    assert_eq!(TrackType::StraightH.route(Direction::West, false), Some((Direction::East, false)));
    assert_eq!(TrackType::StraightH.route(Direction::North, false), None);
    assert_eq!(TrackType::StraightV.route(Direction::South, true), Some((Direction::North, false)));
    assert_eq!(TrackType::CurveNE.route(Direction::North, false), Some((Direction::East, false)));
    assert_eq!(TrackType::CurveNE.route(Direction::East, false), Some((Direction::North, false)));
    assert_eq!(TrackType::CurveNW.route(Direction::West, false), Some((Direction::North, false)));
    assert_eq!(TrackType::CurveSE.route(Direction::South, false), Some((Direction::East, false)));
    assert_eq!(TrackType::CurveSW.route(Direction::West, false), Some((Direction::South, false)));
    assert_eq!(TrackType::CurveSW.route(Direction::East, false), None);
    for d in Direction::all() {
        assert_eq!(TrackType::Crossing.route(d, false), Some((d.opposite(), false)));
    }
}

#[test]
fn two_sided_pieces_are_reversible() {
    let pieces = [
        TrackType::StraightH,
        TrackType::StraightV,
        TrackType::CurveNE,
        TrackType::CurveNW,
        TrackType::CurveSE,
        TrackType::CurveSW,
        TrackType::Crossing,
    ];
    for t in pieces {
        for d in Direction::all() {
            if let Some((x, toggle)) = t.route(d, false) {
                assert!(!toggle);
                assert_eq!(t.route(x, false), Some((d, false)));
            }
        }
    }
}

#[test]
fn route_succeeds_exactly_on_open_sides() {
    let mut pieces: Vec<TrackType> = vec![
        TrackType::StraightH,
        TrackType::StraightV,
        TrackType::CurveNE,
        TrackType::CurveNW,
        TrackType::CurveSE,
        TrackType::CurveSW,
        TrackType::Crossing,
    ];
    pieces.extend(TrackType::switch_orientations());
    for t in pieces {
        let sides = t.open_sides();
        for d in Direction::all() {
            for f in [false, true] {
                let r = t.route(d, f);
                assert_eq!(r.is_some(), sides.contains(&d));
                if let Some((x, _)) = r {
                    assert!(sides.contains(&x));
                }
            }
        }
    }
}

#[test]
fn open_sides_of_pieces() {
    assert_eq!(TrackType::StraightH.open_sides(), vec![Direction::West, Direction::East]);
    assert_eq!(TrackType::CurveSW.open_sides(), vec![Direction::South, Direction::West]);
    assert_eq!(TrackType::Crossing.open_sides().len(), 4);
}

#[test]
fn display_chars() {
    assert_eq!(TrackType::StraightH.display_char(), "═");
    assert_eq!(TrackType::StraightV.display_char(), "║");
    assert_eq!(TrackType::CurveNE.display_char(), "╚");
    assert_eq!(TrackType::CurveNW.display_char(), "╝");
    assert_eq!(TrackType::CurveSE.display_char(), "╔");
    assert_eq!(TrackType::CurveSW.display_char(), "╗");
    assert_eq!(TrackType::Crossing.display_char(), "╬");
    let sw = |t, b| TrackType::Switch(SwitchConfig { trunk: t, straight: Direction::opposite(t), branch: b });
    assert_eq!(sw(Direction::West, Direction::North).display_char(), "╦");
    assert_eq!(sw(Direction::East, Direction::South).display_char(), "╩");
    assert_eq!(sw(Direction::North, Direction::East).display_char(), "╠");
    assert_eq!(sw(Direction::South, Direction::West).display_char(), "╣");
    assert_eq!(sw(Direction::West, Direction::East).display_char(), "┼");
}

#[test]
fn from_code_names() {
    assert_eq!(TrackType::from_code("H"), Some(TrackType::StraightH));
    assert_eq!(TrackType::from_code("V"), Some(TrackType::StraightV));
    assert_eq!(TrackType::from_code("NE"), Some(TrackType::CurveNE));
    assert_eq!(TrackType::from_code("NW"), Some(TrackType::CurveNW));
    assert_eq!(TrackType::from_code("SE"), Some(TrackType::CurveSE));
    assert_eq!(TrackType::from_code("SW"), Some(TrackType::CurveSW));
    assert_eq!(TrackType::from_code("X"), Some(TrackType::Crossing));
    assert_eq!(TrackType::from_code("h"), None);
    assert_eq!(TrackType::from_code(""), None);
    assert_eq!(TrackType::from_code("Q"), None);
}

#[test]
fn from_code_switches() {
    assert_eq!(
        TrackType::from_code("YWN"),
        Some(TrackType::Switch(SwitchConfig { trunk: Direction::West, straight: Direction::East, branch: Direction::North }))
    );
    assert_eq!(
        TrackType::from_code("Yse"),
        Some(TrackType::Switch(SwitchConfig { trunk: Direction::South, straight: Direction::North, branch: Direction::East }))
    );
    // Branch equal or opposite to the trunk is no switch.
    assert_eq!(TrackType::from_code("YWW"), None);
    assert_eq!(TrackType::from_code("YWE"), None);
    assert_eq!(TrackType::from_code("YWX"), None);
    assert_eq!(TrackType::from_code("YW"), None);
    assert_eq!(TrackType::from_code("YWNN"), None);
    assert_eq!(TrackType::from_code("Yé"), None);
}

#[test]
fn switch_codes_give_valid_configs() {
    let letters = ['N', 'S', 'E', 'W', 'x'];
    for a in letters {
        for b in letters {
            let code = format!("Y{}{}", a, b);
            if let Some(TrackType::Switch(cfg)) = TrackType::from_code(&code) {
                assert!(SwitchConfig::all().contains(&cfg));
            }
        }
    }
}

#[test]
fn orientation_lists() {
    assert_eq!(TrackType::straight_orientations(), &[TrackType::StraightH, TrackType::StraightV]);
    assert_eq!(TrackType::curve_orientations().len(), 4);
    assert_eq!(TrackType::crossing_orientations(), &[TrackType::Crossing]);
    let sw = TrackType::switch_orientations();
    assert_eq!(sw.len(), 8);
    for (t, cfg) in sw.iter().zip(SwitchConfig::all().iter()) {
        assert_eq!(*t, TrackType::Switch(*cfg));
    }
}

#[test]
fn inventory_total_and_empty() {
    let inv = Inventory { straight: 2, curve: 1, crossing: 0, switch: 3 };
    assert_eq!(inv.total(), 6);
    assert!(!inv.is_empty());
    let empty = Inventory::default();
    assert!(empty.is_empty());
    assert_eq!(empty.total(), 0);
}

#[test]
fn upper_case_names() {
    assert_eq!(Direction::from_upper_name("NORTH"), Some(Direction::North));
    assert_eq!(Direction::from_upper_name("WEST"), Some(Direction::West));
    assert_eq!(Direction::from_upper_name("West"), None);
    assert_eq!(Direction::from_upper_name("N"), None);
}
