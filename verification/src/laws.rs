use vstd::prelude::*;
use crate::posmap::Pos;
use crate::puzzle::{tunnel_exit_from, Puzzle, Tunnel};
use crate::simulation::{spec_simulate, SimResult};
use crate::types::{Direction, SwitchConfig, TrackType};

verus! {

/// Turning around twice faces the way one started, and never the same way.
pub proof fn law_opposite_involution(d: Direction)
    ensures
        d.opposite().opposite() == d,
        d.opposite() != d,
{
}

/// A step in the opposite direction undoes a step.
pub proof fn law_delta_opposite(d: Direction)
    ensures
        d.opposite().delta().0 == -d.delta().0,
        d.opposite().delta().1 == -d.delta().1,
{
}

/// A train can enter a piece exactly on its open sides, and it leaves on an open side.
pub proof fn law_route_open_sides(t: TrackType, entry: Direction, flipped: bool)
    requires
        t is Switch ==> t->Switch_0.is_valid(),
    ensures
        (t.route(entry, flipped) is Some) <==> t.spec_open_sides().contains(entry),
        t.route(entry, flipped) matches Some((exit, _)) ==> t.spec_open_sides().contains(exit),
{
    let sides = t.spec_open_sides();
    if t.route(entry, flipped) is Some {
        let (exit, _) = t.route(entry, flipped)->0;
        if sides.len() == 2 {
            assert(sides[0] == entry || sides[1] == entry);
            assert(sides[0] == exit || sides[1] == exit);
        } else if sides.len() == 3 {
            assert(sides[0] == entry || sides[1] == entry || sides[2] == entry);
            assert(sides[0] == exit || sides[1] == exit || sides[2] == exit);
        } else {
            assert(sides[0] == entry || sides[1] == entry || sides[2] == entry || sides[3] == entry);
            assert(sides[0] == exit || sides[1] == exit || sides[2] == exit || sides[3] == exit);
        }
    }
}

/// Pieces other than switches can be travelled both ways and never toggle anything: a train
/// leaving through one side, entering back through it, leaves where the first one came in.
pub proof fn law_route_reversible(t: TrackType, entry: Direction, flipped: bool)
    requires
        !(t is Switch),
    ensures
        t.route(entry, flipped) matches Some((exit, toggle)) ==> !toggle && t.route(exit, flipped) == Some((entry, false)),
{
}

/// A crossing lets a train straight through: it leaves on the side opposite to its entry.
pub proof fn law_crossing_straight_through(entry: Direction, flipped: bool)
    ensures
        TrackType::Crossing.route(entry, flipped) == Some((entry.opposite(), false)),
{
}

/// A switch toggles whenever a train passes: from the trunk a train takes the straight side
/// when the switch is not flipped and the branch when it is; from the straight side or the
/// branch it always leaves by the trunk.
pub proof fn law_switch_routing(cfg: SwitchConfig, flipped: bool)
    requires
        cfg.is_valid(),
    ensures
        cfg.route(cfg.trunk, flipped) == Some((if flipped { cfg.branch } else { cfg.straight }, true)),
        cfg.route(cfg.straight, flipped) == Some((cfg.trunk, true)),
        cfg.route(cfg.branch, flipped) == Some((cfg.trunk, true)),
{
}

/// The eight switch configurations are valid, pairwise distinct, and every valid
/// configuration is among them.
pub proof fn law_switch_configs_complete()
    ensures
        forall|i: int| 0 <= i < 8 ==> (#[trigger] SwitchConfig::spec_all()[i]).is_valid(),
        forall|i: int, j: int| 0 <= i < 8 && 0 <= j < 8 && i != j ==> SwitchConfig::spec_all()[i] != SwitchConfig::spec_all()[j],
        forall|c: SwitchConfig| c.is_valid() ==> #[trigger] SwitchConfig::spec_all().contains(c),
        SwitchConfig::spec_all().len() == 8,
{
    let a = SwitchConfig::spec_all();
    assert forall|c: SwitchConfig| c.is_valid() implies #[trigger] a.contains(c) by {
        let i: int = match (c.trunk, c.branch) {
            (Direction::West, Direction::North) => 0,
            (Direction::West, Direction::South) => 1,
            (Direction::East, Direction::North) => 2,
            (Direction::East, Direction::South) => 3,
            (Direction::North, Direction::East) => 4,
            (Direction::North, Direction::West) => 5,
            (Direction::South, Direction::East) => 6,
            _ => 7,
        };
        assert(a[i] == c);
    }
}

/// A switch read from a cell code is a valid switch.
pub proof fn law_switch_code_valid(s: Seq<char>)
    ensures
        TrackType::spec_from_code(s) matches Some(TrackType::Switch(cfg)) ==> cfg.is_valid(),
{
    reveal_strlit("H");
    reveal_strlit("V");
    reveal_strlit("NE");
    reveal_strlit("NW");
    reveal_strlit("SE");
    reveal_strlit("SW");
    reveal_strlit("X");
}

/// A direction's letter reads back as that direction, by letter and as a name.
pub proof fn law_direction_name_round_trip(d: Direction)
    ensures
        Direction::from_char(d.letter()) == Some(d),
        Direction::spec_from_str(seq![d.letter()]) == Some(d),
{
    assert(seq![d.letter()].len() == 1);
}

/// Whether `(p, f)` is one of the two ends of a tunnel.
pub open spec fn has_end(t: Tunnel, p: Pos, f: Direction) -> bool {
    (t.entry_pos == p && t.entry_facing == f) || (t.exit_pos == p && t.exit_facing == f)
}

/// Tunnels before index `i` without the end `(p, f)` are passed over by the lookup.
proof fn lemma_tunnel_skip(ts: Seq<Tunnel>, k: int, i: int, p: Pos, f: Direction)
    requires
        0 <= k <= i < ts.len(),
        forall|j: int| k <= j < i ==> !has_end(#[trigger] ts[j], p, f),
    ensures
        tunnel_exit_from(ts, k, p, f) == tunnel_exit_from(ts, i, p, f),
    decreases i - k,
{
    if k < i {
        assert(!has_end(ts[k], p, f));
        lemma_tunnel_skip(ts, k + 1, i, p, f);
    }
}

/// A tunnel works both ways: entering either end leads out of the other, unless an earlier
/// tunnel in the list has that same end (the first match wins).
pub proof fn law_tunnel_both_ways(puzzle: &Puzzle, i: int)
    requires
        0 <= i < puzzle.tunnels@.len(),
    ensures
        ({
            let ts = puzzle.tunnels@;
            let t = ts[i];
            &&& (forall|j: int| 0 <= j < i ==> !has_end(#[trigger] ts[j], t.entry_pos, t.entry_facing))
                ==> puzzle.spec_tunnel_exit(t.entry_pos, t.entry_facing) == Some((t.exit_pos, t.exit_facing))
            &&& (forall|j: int| 0 <= j < i ==> !has_end(#[trigger] ts[j], t.exit_pos, t.exit_facing))
                ==> puzzle.spec_tunnel_exit(t.exit_pos, t.exit_facing) == Some((t.entry_pos, t.entry_facing))
        }),
{
    let ts = puzzle.tunnels@;
    let t = ts[i];
    if forall|j: int| 0 <= j < i ==> !has_end(#[trigger] ts[j], t.entry_pos, t.entry_facing) {
        lemma_tunnel_skip(ts, 0, i, t.entry_pos, t.entry_facing);
    }
    if forall|j: int| 0 <= j < i ==> !has_end(#[trigger] ts[j], t.exit_pos, t.exit_facing) {
        lemma_tunnel_skip(ts, 0, i, t.exit_pos, t.exit_facing);
    }
}

/// With no trains to bring home, any placement wins.
pub proof fn law_no_cars_win(puzzle: &Puzzle, pl: Map<Pos, TrackType>)
    requires
        puzzle.cars@.len() == 0,
    ensures
        spec_simulate(puzzle, pl) == SimResult::Win,
{
    reveal_with_fuel(crate::simulation::sim_run, 2);
}

} // verus!
