use vstd::prelude::*;
use crate::text::{chars_of, chars_eq_str, string_from_str, to_uppercase, upper_text};

verus! {

/// One of the four sides of a cell, and the direction of travel through it.
#[derive(Clone, Copy, Debug, PartialEq, Eq, Structural, Hash, PartialOrd, Ord)]
pub enum Direction {
    North,
    South,
    East,
    West,
}

impl Direction {
    pub open spec fn spec_opposite(self) -> Direction {
        match self {
            Direction::North => Direction::South,
            Direction::South => Direction::North,
            Direction::East => Direction::West,
            Direction::West => Direction::East,
        }
    }

    #[verifier::when_used_as_spec(spec_opposite)]
    pub fn opposite(self) -> (r: Direction)
        ensures
            r == self.spec_opposite(),
    {
        match self {
            Direction::North => Direction::South,
            Direction::South => Direction::North,
            Direction::East => Direction::West,
            Direction::West => Direction::East,
        }
    }

    /// Row/column delta of one step in this direction; rows grow downward.
    pub open spec fn spec_delta(self) -> (i32, i32) {
        match self {
            Direction::North => (-1i32, 0i32),
            Direction::South => (1i32, 0i32),
            Direction::East => (0i32, 1i32),
            Direction::West => (0i32, -1i32),
        }
    }

    #[verifier::when_used_as_spec(spec_delta)]
    pub fn delta(self) -> (r: (i32, i32))
        ensures
            r == self.spec_delta(),
    {
        match self {
            Direction::North => (-1, 0),
            Direction::South => (1, 0),
            Direction::East => (0, 1),
            Direction::West => (0, -1),
        }
    }

    /// The direction named by a letter, in either case.
    pub open spec fn spec_from_char(c: char) -> Option<Direction> {
        if c == 'N' || c == 'n' {
            Some(Direction::North)
        } else if c == 'S' || c == 's' {
            Some(Direction::South)
        } else if c == 'E' || c == 'e' {
            Some(Direction::East)
        } else if c == 'W' || c == 'w' {
            Some(Direction::West)
        } else {
            None
        }
    }

    #[verifier::when_used_as_spec(spec_from_char)]
    pub fn from_char(c: char) -> (r: Option<Direction>)
        ensures
            r == Self::spec_from_char(c),
    {
        match c {
            'N' | 'n' => Some(Direction::North),
            'S' | 's' => Some(Direction::South),
            'E' | 'e' => Some(Direction::East),
            'W' | 'w' => Some(Direction::West),
            _ => None,
        }
    }


    /// The direction whose full name, in upper case, is `name`.
    pub open spec fn spec_from_upper_name(name: Seq<char>) -> Option<Direction> {
        if name == "NORTH"@ {
            Some(Direction::North)
        } else if name == "SOUTH"@ {
            Some(Direction::South)
        } else if name == "EAST"@ {
            Some(Direction::East)
        } else if name == "WEST"@ {
            Some(Direction::West)
        } else {
            None
        }
    }

    /// Reads an upper-case full name: `NORTH`, `SOUTH`, `EAST` or `WEST`.
    pub fn from_upper_name(name: &str) -> (r: Option<Direction>)
        ensures
            r == Self::spec_from_upper_name(name@),
    {
        let cs = chars_of(name);
        if chars_eq_str(cs.as_slice(), "NORTH") {
            Some(Direction::North)
        } else if chars_eq_str(cs.as_slice(), "SOUTH") {
            Some(Direction::South)
        } else if chars_eq_str(cs.as_slice(), "EAST") {
            Some(Direction::East)
        } else if chars_eq_str(cs.as_slice(), "WEST") {
            Some(Direction::West)
        } else {
            None
        }
    }

    /// The direction named by a string: a single ASCII letter in either case, or a full
    /// name whose upper-case form is `NORTH`, `SOUTH`, `EAST` or `WEST`.
    pub open spec fn spec_from_str(s: Seq<char>) -> Option<Direction> {
        if s.len() == 1 && (s[0] as u32) < 128 {
            Self::spec_from_char(s[0])
        } else {
            Self::spec_from_upper_name(upper_text(s))
        }
    }

    pub fn from_str(s: &str) -> (r: Option<Direction>)
        ensures
            r == Self::spec_from_str(s@),
    {
        let cs = chars_of(s);
        if cs.len() == 1 && (cs[0] as u32) < 128 {
            Self::from_char(cs[0])
        } else {
            let up = to_uppercase(s);
            assert(up@ == upper_text(s@));
            Self::from_upper_name(up.as_str())
        }
    }

    /// The letter that names this direction.
    pub open spec fn letter(self) -> char {
        match self {
            Direction::North => 'N',
            Direction::South => 'S',
            Direction::East => 'E',
            Direction::West => 'W',
        }
    }

    /// The one-letter name of this direction (`N`, `S`, `E` or `W`).
    pub fn to_string(&self) -> (r: String)
        ensures
            r@ == seq![self.letter()],
    {
        let r = match self {
            Direction::North => string_from_str("N"),
            Direction::South => string_from_str("S"),
            Direction::East => string_from_str("E"),
            Direction::West => string_from_str("W"),
        };
        proof {
            reveal_strlit("N");
            reveal_strlit("S");
            reveal_strlit("E");
            reveal_strlit("W");
        }
        r
    }

    pub open spec fn spec_all() -> Seq<Direction> {
        seq![Direction::North, Direction::South, Direction::East, Direction::West]
    }

    pub fn all() -> (r: [Direction; 4])
        ensures
            r@ == Self::spec_all(),
    {
        [Direction::North, Direction::South, Direction::East, Direction::West]
    }
}

/// Switch configuration.
/// `trunk`: the single-end side where trains diverge.
/// `straight`: the through path (when not flipped, trunk to straight).
/// `branch`: the diverging path (when flipped, trunk to branch).
/// Trains entering from `straight` or `branch` always exit via `trunk`, and toggle the switch.
#[derive(Clone, Copy, Debug, PartialEq, Eq, Structural, Hash, PartialOrd, Ord)]
pub struct SwitchConfig {
    pub trunk: Direction,
    pub straight: Direction,
    pub branch: Direction,
}

impl SwitchConfig {
    /// A configuration that a switch piece can have: the straight side faces the trunk,
    /// and the branch leaves at a right angle.
    pub open spec fn is_valid(self) -> bool {
        &&& self.straight == self.trunk.spec_opposite()
        &&& self.branch != self.trunk
        &&& self.branch != self.straight
    }

    pub open spec fn spec_all() -> Seq<SwitchConfig> {
        seq![
            SwitchConfig { trunk: Direction::West, straight: Direction::East, branch: Direction::North },
            SwitchConfig { trunk: Direction::West, straight: Direction::East, branch: Direction::South },
            SwitchConfig { trunk: Direction::East, straight: Direction::West, branch: Direction::North },
            SwitchConfig { trunk: Direction::East, straight: Direction::West, branch: Direction::South },
            SwitchConfig { trunk: Direction::North, straight: Direction::South, branch: Direction::East },
            SwitchConfig { trunk: Direction::North, straight: Direction::South, branch: Direction::West },
            SwitchConfig { trunk: Direction::South, straight: Direction::North, branch: Direction::East },
            SwitchConfig { trunk: Direction::South, straight: Direction::North, branch: Direction::West },
        ]
    }

    /// All 8 valid switch configurations.
    pub fn all() -> (r: [SwitchConfig; 8])
        ensures
            r@ == Self::spec_all(),
    {
        [
            SwitchConfig { trunk: Direction::West, straight: Direction::East, branch: Direction::North },
            SwitchConfig { trunk: Direction::West, straight: Direction::East, branch: Direction::South },
            SwitchConfig { trunk: Direction::East, straight: Direction::West, branch: Direction::North },
            SwitchConfig { trunk: Direction::East, straight: Direction::West, branch: Direction::South },
            SwitchConfig { trunk: Direction::North, straight: Direction::South, branch: Direction::East },
            SwitchConfig { trunk: Direction::North, straight: Direction::South, branch: Direction::West },
            SwitchConfig { trunk: Direction::South, straight: Direction::North, branch: Direction::East },
            SwitchConfig { trunk: Direction::South, straight: Direction::North, branch: Direction::West },
        ]
    }

    /// Where a train entering via `entry_side` leaves, and whether the switch toggles;
    /// `None` when the train crashes.
    pub open spec fn spec_route(self, entry_side: Direction, flipped: bool) -> Option<(Direction, bool)> {
        if entry_side == self.trunk {
            Some((if flipped { self.branch } else { self.straight }, true))
        } else if entry_side == self.straight || entry_side == self.branch {
            Some((self.trunk, true))
        } else {
            None
        }
    }

    #[verifier::when_used_as_spec(spec_route)]
    pub fn route(self, entry_side: Direction, flipped: bool) -> (r: Option<(Direction, bool)>)
        ensures
            r == self.spec_route(entry_side, flipped),
    {
        if entry_side == self.trunk {
            let exit = if flipped {
                self.branch
            } else {
                self.straight
            };
            Some((exit, true))
        } else if entry_side == self.straight || entry_side == self.branch {
            Some((self.trunk, true))
        } else {
            None
        }
    }

    pub open spec fn spec_open_sides(self) -> Seq<Direction> {
        seq![self.trunk, self.straight, self.branch]
    }

    pub fn open_sides(self) -> (r: [Direction; 3])
        ensures
            r@ == self.spec_open_sides(),
    {
        [self.trunk, self.straight, self.branch]
    }
}

/// A track piece type with its routing behaviour.
/// `entry_side` is the side of the cell the train enters from: a train moving East
/// enters the West side of the next cell. The exit side becomes the new direction of travel.
#[derive(Clone, Copy, Debug, PartialEq, Eq, Structural, Hash, PartialOrd, Ord)]
pub enum TrackType {
    StraightH,
    StraightV,
    CurveNE,
    CurveNW,
    CurveSE,
    CurveSW,
    Crossing,
    Switch(SwitchConfig),
}

/// The exit of a two-sided piece joining `a` and `b`.
pub open spec fn two_way(a: Direction, b: Direction, entry_side: Direction) -> Option<(Direction, bool)> {
    if entry_side == a {
        Some((b, false))
    } else if entry_side == b {
        Some((a, false))
    } else {
        None
    }
}

impl TrackType {
    pub open spec fn spec_route(self, entry_side: Direction, switch_flipped: bool) -> Option<(Direction, bool)> {
        match self {
            TrackType::StraightH => two_way(Direction::West, Direction::East, entry_side),
            TrackType::StraightV => two_way(Direction::North, Direction::South, entry_side),
            TrackType::CurveNE => two_way(Direction::North, Direction::East, entry_side),
            TrackType::CurveNW => two_way(Direction::North, Direction::West, entry_side),
            TrackType::CurveSE => two_way(Direction::South, Direction::East, entry_side),
            TrackType::CurveSW => two_way(Direction::South, Direction::West, entry_side),
            TrackType::Crossing => Some((entry_side.spec_opposite(), false)),
            TrackType::Switch(cfg) => cfg.spec_route(entry_side, switch_flipped),
        }
    }

    /// Route a train entering via `entry_side`: the exit side and whether a switch toggles,
    /// or `None` when the train crashes.
    #[verifier::when_used_as_spec(spec_route)]
    pub fn route(self, entry_side: Direction, switch_flipped: bool) -> (r: Option<(Direction, bool)>)
        ensures
            r == self.spec_route(entry_side, switch_flipped),
    {
        match self {
            TrackType::StraightH => match entry_side {
                Direction::West => Some((Direction::East, false)),
                Direction::East => Some((Direction::West, false)),
                _ => None,
            },
            TrackType::StraightV => match entry_side {
                Direction::North => Some((Direction::South, false)),
                Direction::South => Some((Direction::North, false)),
                _ => None,
            },
            TrackType::CurveNE => match entry_side {
                Direction::North => Some((Direction::East, false)),
                Direction::East => Some((Direction::North, false)),
                _ => None,
            },
            TrackType::CurveNW => match entry_side {
                Direction::North => Some((Direction::West, false)),
                Direction::West => Some((Direction::North, false)),
                _ => None,
            },
            TrackType::CurveSE => match entry_side {
                Direction::South => Some((Direction::East, false)),
                Direction::East => Some((Direction::South, false)),
                _ => None,
            },
            TrackType::CurveSW => match entry_side {
                Direction::South => Some((Direction::West, false)),
                Direction::West => Some((Direction::South, false)),
                _ => None,
            },
            TrackType::Crossing => {
                match entry_side {
                    Direction::West => Some((Direction::East, false)),
                    Direction::East => Some((Direction::West, false)),
                    Direction::North => Some((Direction::South, false)),
                    Direction::South => Some((Direction::North, false)),
                }
            },
            TrackType::Switch(cfg) => cfg.route(entry_side, switch_flipped),
        }
    }


    /// The box-drawing character that shows this piece.
    pub open spec fn spec_display_char(self) -> Seq<char> {
        match self {
            TrackType::StraightH => "═"@,
            TrackType::StraightV => "║"@,
            TrackType::CurveNE => "╚"@,
            TrackType::CurveNW => "╝"@,
            TrackType::CurveSE => "╔"@,
            TrackType::CurveSW => "╗"@,
            TrackType::Crossing => "╬"@,
            TrackType::Switch(cfg) => {
                if (cfg.trunk == Direction::West || cfg.trunk == Direction::East) && cfg.branch == Direction::North {
                    "╦"@
                } else if (cfg.trunk == Direction::West || cfg.trunk == Direction::East) && cfg.branch == Direction::South {
                    "╩"@
                } else if (cfg.trunk == Direction::North || cfg.trunk == Direction::South) && cfg.branch == Direction::East {
                    "╠"@
                } else if (cfg.trunk == Direction::North || cfg.trunk == Direction::South) && cfg.branch == Direction::West {
                    "╣"@
                } else {
                    "┼"@
                }
            },
        }
    }

    /// Unicode display character.
    pub fn display_char(self) -> (r: &'static str)
        ensures
            r@ == self.spec_display_char(),
    {
        match self {
            TrackType::StraightH => "═",
            TrackType::StraightV => "║",
            TrackType::CurveNE => "╚",
            TrackType::CurveNW => "╝",
            TrackType::CurveSE => "╔",
            TrackType::CurveSW => "╗",
            TrackType::Crossing => "╬",
            TrackType::Switch(cfg) => match (cfg.trunk, cfg.branch) {
                (Direction::West, Direction::North) | (Direction::East, Direction::North) => "╦",
                (Direction::West, Direction::South) | (Direction::East, Direction::South) => "╩",
                (Direction::North, Direction::East) | (Direction::South, Direction::East) => "╠",
                (Direction::North, Direction::West) | (Direction::South, Direction::West) => "╣",
                _ => "┼",
            },
        }
    }

    /// The switch with the given trunk and branch, if they are at a right angle.
    pub open spec fn switch_of(trunk: Direction, branch: Direction) -> Option<TrackType> {
        if trunk == branch || trunk == branch.spec_opposite() {
            None
        } else {
            Some(TrackType::Switch(SwitchConfig { trunk, straight: trunk.spec_opposite(), branch }))
        }
    }

    /// The track named by a grid cell code of the puzzle format.
    pub open spec fn spec_from_code(s: Seq<char>) -> Option<TrackType> {
        if s == "H"@ {
            Some(TrackType::StraightH)
        } else if s == "V"@ {
            Some(TrackType::StraightV)
        } else if s == "NE"@ {
            Some(TrackType::CurveNE)
        } else if s == "NW"@ {
            Some(TrackType::CurveNW)
        } else if s == "SE"@ {
            Some(TrackType::CurveSE)
        } else if s == "SW"@ {
            Some(TrackType::CurveSW)
        } else if s == "X"@ {
            Some(TrackType::Crossing)
        } else if s.len() == 3 && s[0] == 'Y' {
            match (Direction::spec_from_char(s[1]), Direction::spec_from_char(s[2])) {
                (Some(trunk), Some(branch)) => Self::switch_of(trunk, branch),
                _ => None,
            }
        } else {
            None
        }
    }

    /// Parse a track type from the grid cell code used in puzzle files.
    pub fn from_code(s: &str) -> (r: Option<TrackType>)
        ensures
            r == Self::spec_from_code(s@),
    {
        let cs = chars_of(s);
        Self::from_code_chars(cs.as_slice())
    }

    /// The track named by a cell code given as characters.
    pub fn from_code_chars(c: &[char]) -> (r: Option<TrackType>)
        ensures
            r == Self::spec_from_code(c@),
    {
        if chars_eq_str(c, "H") {
            Some(TrackType::StraightH)
        } else if chars_eq_str(c, "V") {
            Some(TrackType::StraightV)
        } else if chars_eq_str(c, "NE") {
            Some(TrackType::CurveNE)
        } else if chars_eq_str(c, "NW") {
            Some(TrackType::CurveNW)
        } else if chars_eq_str(c, "SE") {
            Some(TrackType::CurveSE)
        } else if chars_eq_str(c, "SW") {
            Some(TrackType::CurveSW)
        } else if chars_eq_str(c, "X") {
            Some(TrackType::Crossing)
        } else if c.len() == 3 && c[0] == 'Y' {
            let trunk = match Direction::from_char(c[1]) {
                Some(d) => d,
                None => return None,
            };
            let branch = match Direction::from_char(c[2]) {
                Some(d) => d,
                None => return None,
            };
            if trunk == branch || trunk == branch.opposite() {
                return None;
            }
            let straight = trunk.opposite();
            Some(TrackType::Switch(SwitchConfig { trunk, straight, branch }))
        } else {
            None
        }
    }

    pub open spec fn spec_straight_orientations() -> Seq<TrackType> {
        seq![TrackType::StraightH, TrackType::StraightV]
    }

    pub open spec fn spec_curve_orientations() -> Seq<TrackType> {
        seq![TrackType::CurveNE, TrackType::CurveNW, TrackType::CurveSE, TrackType::CurveSW]
    }

    pub open spec fn spec_crossing_orientations() -> Seq<TrackType> {
        seq![TrackType::Crossing]
    }

    pub open spec fn spec_switch_orientations() -> Seq<TrackType> {
        SwitchConfig::spec_all().map_values(|cfg: SwitchConfig| TrackType::Switch(cfg))
    }

    /// All orientations for a "straight" inventory piece.
    pub fn straight_orientations() -> (r: &'static [TrackType])
        ensures
            r@ == Self::spec_straight_orientations(),
    {
        &[TrackType::StraightH, TrackType::StraightV]
    }

    /// All orientations for a "curve" inventory piece.
    pub fn curve_orientations() -> (r: &'static [TrackType])
        ensures
            r@ == Self::spec_curve_orientations(),
    {
        &[TrackType::CurveNE, TrackType::CurveNW, TrackType::CurveSE, TrackType::CurveSW]
    }

    /// All orientations for a "crossing" inventory piece.
    pub fn crossing_orientations() -> (r: &'static [TrackType])
        ensures
            r@ == Self::spec_crossing_orientations(),
    {
        &[TrackType::Crossing]
    }

    /// All orientations for a "switch" inventory piece.
    pub fn switch_orientations() -> (r: Vec<TrackType>)
        ensures
            r@ == Self::spec_switch_orientations(),
    {
        let cfgs = SwitchConfig::all();
        let mut v: Vec<TrackType> = Vec::new();
        let mut i: usize = 0;
        while i < 8
            invariant
                i <= 8,
                cfgs@ == SwitchConfig::spec_all(),
                v@ == Self::spec_switch_orientations().take(i as int),
            decreases 8 - i,
        {
            v.push(TrackType::Switch(cfgs[i]));
            assert(Self::spec_switch_orientations().take(i + 1) == Self::spec_switch_orientations().take(i as int).push(TrackType::Switch(cfgs@[i as int])));
            i = i + 1;
        }
        assert(Self::spec_switch_orientations().take(8) == Self::spec_switch_orientations());
        v
    }

    pub open spec fn spec_open_sides(self) -> Seq<Direction> {
        match self {
            TrackType::StraightH => seq![Direction::West, Direction::East],
            TrackType::StraightV => seq![Direction::North, Direction::South],
            TrackType::CurveNE => seq![Direction::North, Direction::East],
            TrackType::CurveNW => seq![Direction::North, Direction::West],
            TrackType::CurveSE => seq![Direction::South, Direction::East],
            TrackType::CurveSW => seq![Direction::South, Direction::West],
            TrackType::Crossing => seq![Direction::North, Direction::South, Direction::East, Direction::West],
            TrackType::Switch(cfg) => cfg.spec_open_sides(),
        }
    }

    /// Sides that are open (connected) on this track type.
    pub fn open_sides(self) -> (r: Vec<Direction>)
        ensures
            r@ == self.spec_open_sides(),
    {
        match self {
            TrackType::StraightH => vec![Direction::West, Direction::East],
            TrackType::StraightV => vec![Direction::North, Direction::South],
            TrackType::CurveNE => vec![Direction::North, Direction::East],
            TrackType::CurveNW => vec![Direction::North, Direction::West],
            TrackType::CurveSE => vec![Direction::South, Direction::East],
            TrackType::CurveSW => vec![Direction::South, Direction::West],
            TrackType::Crossing => vec![Direction::North, Direction::South, Direction::East, Direction::West],
            TrackType::Switch(cfg) => {
                let sides = cfg.open_sides();
                vec![sides[0], sides[1], sides[2]]
            },
        }
    }
}

/// How many of each placeable piece type remain in the player's inventory.
#[derive(Clone, Copy, Debug)]
pub struct Inventory {
    pub straight: usize,
    pub curve: usize,
    pub crossing: usize,
    pub switch: usize,
}

impl Default for Inventory {
    fn default() -> (r: Inventory)
        ensures
            r.straight == 0 && r.curve == 0 && r.crossing == 0 && r.switch == 0,
    {
        Inventory { straight: 0, curve: 0, crossing: 0, switch: 0 }
    }
}

impl Inventory {
    pub open spec fn spec_total(&self) -> int {
        self.straight + self.curve + self.crossing + self.switch
    }

    pub fn is_empty(&self) -> (r: bool)
        ensures
            r == (self.straight == 0 && self.curve == 0 && self.crossing == 0 && self.switch == 0),
    {
        self.straight == 0 && self.curve == 0 && self.crossing == 0 && self.switch == 0
    }

    pub fn total(&self) -> (r: usize)
        requires
            self.spec_total() <= usize::MAX,
        ensures
            r == self.spec_total(),
    {
        self.straight + self.curve + self.crossing + self.switch
    }
}

} // verus!
