use vstd::prelude::*;
use crate::posmap::{pos_eq, Pos, PosMap};
use crate::puzzle::{CellKind, Puzzle, Tunnel, tunnel_exit_from};
use crate::types::{Direction, TrackType};

verus! {

/// Number of steps after which a simulation that has not ended counts as a loop.
pub const MAX_STEPS: usize = 512;

/// The outcome of running the trains over a track placement.
#[derive(Debug, Clone, Copy, PartialEq, Eq, Structural)]
pub enum SimResult {
    Win,
    /// A car fell off the grid or hit impassable track.
    Crash { car_color: u8, car_id: u8 },
    /// A car reached the caboose before the group was fully coupled.
    WrongOrder { car_color: u8, car_id: u8 },
    Loop,
}

/// The moving state of one car.
#[derive(Clone, Copy, Debug)]
pub struct CarState {
    pub id: u8,
    pub color: u8,
    pub pos: Pos,
    pub dir: Direction,
    /// Index of the car in front of this one in the coupled chain (None = front/uncoupled).
    pub leader: Option<usize>,
    pub done: bool,
}

// ── Coordinates ─────────────────────────────────────────────────────────────

/// A position whose coordinates, taken as `i32` values, can still move one step.
pub open spec fn coord_ok(p: Pos) -> bool {
    p.0 < i32::MAX && p.1 < i32::MAX
}

/// Positions are computed as `i32` values: the grid sizes, the cars' starting cells,
/// the cabooses and the tunnel ends all fit.
pub open spec fn coords_fit(puzzle: &Puzzle) -> bool {
    &&& puzzle.rows <= i32::MAX
    &&& puzzle.cols <= i32::MAX
    &&& forall|i: int| 0 <= i < puzzle.cars@.len() ==> coord_ok((#[trigger] puzzle.cars@[i]).row_col())
    &&& forall|i: int| 0 <= i < puzzle.tunnels@.len() ==> tunnel_coords_ok(#[trigger] puzzle.tunnels@[i])
    &&& forall|i: int| 0 <= i < puzzle.cabooses@.len() ==> coord_ok((#[trigger] puzzle.cabooses@[i]).row_col())
}

pub open spec fn tunnel_coords_ok(t: Tunnel) -> bool {
    coord_ok(t.entry_pos) && coord_ok(t.exit_pos)
}

/// What a simulation needs of a puzzle: a well-formed grid, positions that fit `i32`,
/// and no color group of more than 255 cars (the group sizes are counted in `u8`).
pub open spec fn sim_ready(puzzle: &Puzzle) -> bool {
    &&& puzzle.wf()
    &&& coords_fit(puzzle)
    &&& forall|c: u8| group_size(puzzle.cars@, c) <= 255
}

/// The grid neighbour of `pos` in direction `dir`, if it lies in the grid.
pub open spec fn neighbor(puzzle: &Puzzle, pos: Pos, dir: Direction) -> Option<Pos> {
    let nr = pos.0 as int + dir.spec_delta().0 as int;
    let nc = pos.1 as int + dir.spec_delta().1 as int;
    if 0 <= nr < puzzle.rows && 0 <= nc < puzzle.cols {
        Some((nr as usize, nc as usize))
    } else {
        None
    }
}

/// Whether the switch at `p` is flipped (switches start unflipped).
pub open spec fn flipped(sw: Map<Pos, bool>, p: Pos) -> bool {
    sw.contains_key(p) && sw[p]
}

/// One step of a car from `(pos, dir)`: its new position and direction (`None` on a crash),
/// and the switch states afterwards.
pub open spec fn spec_advance(
    puzzle: &Puzzle,
    pl: Map<Pos, TrackType>,
    sw: Map<Pos, bool>,
    pos: Pos,
    dir: Direction,
) -> (Option<(Pos, Direction)>, Map<Pos, bool>) {
    match neighbor(puzzle, pos, dir) {
        None => (None, sw),
        Some(np) => match puzzle.cell(np) {
            CellKind::Tunnel(_) => (puzzle.spec_tunnel_exit(np, dir), sw),
            CellKind::Terminal => (Some((np, dir)), sw),
            CellKind::Wall => (None, sw),
            _ => match puzzle.spec_track_at(np, pl) {
                None => (None, sw),
                Some(t) => match t.spec_route(dir.spec_opposite(), flipped(sw, np)) {
                    None => (None, sw),
                    Some((exit_side, toggle)) => (
                        Some((np, exit_side)),
                        if toggle { sw.insert(np, !flipped(sw, np)) } else { sw },
                    ),
                },
            },
        },
    }
}

// ── Full simulation ─────────────────────────────────────────────────────────

/// The spec-level state of a simulation: the cars, the switches, and for each car the
/// (position, direction) pairs it has reached while moving on its own.
pub struct SimState {
    pub cars: Seq<CarState>,
    pub sw: Map<Pos, bool>,
    pub visited: Seq<Set<(Pos, Direction)>>,
}

/// Number of cars of color `c`.
pub open spec fn group_size(cars: Seq<crate::puzzle::Car>, c: u8) -> nat
    decreases cars.len(),
{
    if cars.len() == 0 {
        0
    } else {
        group_size(cars.drop_last(), c) + if cars.last().color == c { 1nat } else { 0nat }
    }
}

pub open spec fn initial_car(c: crate::puzzle::Car) -> CarState {
    CarState { id: c.id, color: c.color, pos: (c.row, c.col), dir: c.dir, leader: None, done: false }
}

pub open spec fn initial_state(puzzle: &Puzzle) -> SimState {
    SimState {
        cars: puzzle.cars@.map_values(|c: crate::puzzle::Car| initial_car(c)),
        sw: Map::empty(),
        visited: Seq::new(puzzle.cars@.len(), |i: int| Set::<(Pos, Direction)>::empty()),
    }
}

pub open spec fn all_done(cars: Seq<CarState>) -> bool {
    forall|i: int| 0 <= i < cars.len() ==> (#[trigger] cars[i]).done
}

/// The movement phase, for the cars from index `i` on: a coupled car takes the place its
/// leader had at the start of the step; a free car follows the track. A crash or a
/// (position, direction) pair that a car has reached before ends the simulation.
pub open spec fn move_from(
    puzzle: &Puzzle,
    pl: Map<Pos, TrackType>,
    prev_pos: Seq<Pos>,
    prev_dir: Seq<Direction>,
    st: SimState,
    i: int,
) -> Result<SimState, SimResult>
    decreases st.cars.len() - i,
{
    if i < 0 || i >= st.cars.len() {
        Ok(st)
    } else {
        let c = st.cars[i];
        if c.done {
            move_from(puzzle, pl, prev_pos, prev_dir, st, i + 1)
        } else {
            match c.leader {
                Some(l) => move_from(
                    puzzle,
                    pl,
                    prev_pos,
                    prev_dir,
                    SimState {
                        cars: st.cars.update(i, CarState { pos: prev_pos[l as int], dir: prev_dir[l as int], ..c }),
                        ..st
                    },
                    i + 1,
                ),
                None => match spec_advance(puzzle, pl, st.sw, c.pos, c.dir) {
                    (None, _) => Err(SimResult::Crash { car_color: c.color, car_id: c.id }),
                    (Some((np, nd)), sw2) => if st.visited[i].contains((np, nd)) {
                        Err(SimResult::Loop)
                    } else {
                        move_from(
                            puzzle,
                            pl,
                            prev_pos,
                            prev_dir,
                            SimState {
                                cars: st.cars.update(i, CarState { pos: np, dir: nd, ..c }),
                                sw: sw2,
                                visited: st.visited.update(i, st.visited[i].insert((np, nd))),
                            },
                            i + 1,
                        )
                    },
                },
            }
        }
    }
}

/// The id of the car directly in front of a car with id `id` (`id - 1`, wrapping).
pub open spec fn front_id(id: u8) -> u8 {
    if id == 0 { 255u8 } else { (id - 1) as u8 }
}

/// The first index from `k` on of a car that is not done, has color `color` and id `id`.
pub open spec fn find_car(cars: Seq<CarState>, color: u8, id: u8, k: int) -> Option<usize>
    decreases cars.len() - k,
{
    if k < 0 || k >= cars.len() {
        None
    } else if !cars[k].done && cars[k].color == color && cars[k].id == id {
        Some(k as usize)
    } else {
        find_car(cars, color, id, k + 1)
    }
}

/// The coupling phase, for the cars from index `j` on: a free car that is not done couples
/// behind the car with the next lower id of its color when it now stands where that car
/// stood at the start of the step, facing the way that car now faces.
pub open spec fn couple_from(cars: Seq<CarState>, prev_pos: Seq<Pos>, j: int) -> Seq<CarState>
    decreases cars.len() - j,
{
    if j < 0 || j >= cars.len() {
        cars
    } else {
        let c = cars[j];
        if c.done || c.leader is Some || front_id(c.id) == 0 {
            couple_from(cars, prev_pos, j + 1)
        } else {
            match find_car(cars, c.color, front_id(c.id), 0) {
                Some(i) => if c.pos == prev_pos[i as int] && c.dir == cars[i as int].dir {
                    couple_from(cars.update(j, CarState { leader: Some(i), ..c }), prev_pos, j + 1)
                } else {
                    couple_from(cars, prev_pos, j + 1)
                },
                None => couple_from(cars, prev_pos, j + 1),
            }
        }
    }
}

/// Following leaders from `cur`, with `steps` taken so far, reaches `target`
/// before more than `cars.len()` steps are taken.
pub open spec fn chain_reaches(cars: Seq<CarState>, cur: int, target: int, steps: nat) -> bool
    decreases cars.len() + 1 - steps,
{
    if cur == target {
        true
    } else {
        match cars[cur].leader {
            Some(next) => if steps + 1 <= cars.len() {
                chain_reaches(cars, next as int, target, steps + 1)
            } else {
                false
            },
            None => false,
        }
    }
}

/// Whether car `j` counts as coupled behind the car at `leader`.
pub open spec fn in_chain(cars: Seq<CarState>, leader: int, j: int) -> bool {
    j != leader && !cars[j].done && cars[j].color == cars[leader].color && chain_reaches(cars, j, leader, 0)
}

/// Number of cars among the first `k` that count as coupled behind `leader`.
pub open spec fn chain_count_upto(cars: Seq<CarState>, leader: int, k: int) -> nat
    decreases k,
{
    if k <= 0 {
        0
    } else {
        chain_count_upto(cars, leader, k - 1) + if in_chain(cars, leader, k - 1) { 1nat } else { 0nat }
    }
}

/// Number of cars in the chain rooted at `leader`, the leader included.
pub open spec fn spec_count_chain(cars: Seq<CarState>, leader: int) -> nat {
    1 + chain_count_upto(cars, leader, cars.len() as int)
}

/// The first caboose of color `color` standing at `pos`.
pub open spec fn find_caboose(cabs: Seq<crate::puzzle::Caboose>, color: u8, pos: Pos, k: int) -> Option<crate::puzzle::Caboose>
    decreases cabs.len() - k,
{
    if k < 0 || k >= cabs.len() {
        None
    } else if cabs[k].color == color && cabs[k].row == pos.0 && cabs[k].col == pos.1 {
        Some(cabs[k])
    } else {
        find_caboose(cabs, color, pos, k + 1)
    }
}

/// Every car of color `color` marked done.
pub open spec fn mark_done(cars: Seq<CarState>, color: u8) -> Seq<CarState> {
    Seq::new(cars.len(), |k: int| if cars[k].color == color { CarState { done: true, ..cars[k] } } else { cars[k] })
}

/// The caboose phase, for the cars from index `i` on: a car that is not done and stands on
/// a caboose of its color must be the front car (id 1), arrive against the caboose's entry
/// side, and have its whole group coupled behind it; then the whole group is done.
pub open spec fn caboose_from(puzzle: &Puzzle, cars: Seq<CarState>, i: int) -> Result<Seq<CarState>, SimResult>
    decreases cars.len() - i,
{
    if i < 0 || i >= cars.len() {
        Ok(cars)
    } else {
        let c = cars[i];
        if c.done {
            caboose_from(puzzle, cars, i + 1)
        } else {
            match find_caboose(puzzle.cabooses@, c.color, c.pos, 0) {
                None => caboose_from(puzzle, cars, i + 1),
                Some(cab) => if c.id != 1 {
                    Err(SimResult::WrongOrder { car_color: c.color, car_id: c.id })
                } else if c.dir != cab.entry_side.spec_opposite() {
                    Err(SimResult::Crash { car_color: c.color, car_id: c.id })
                } else if spec_count_chain(cars, i) < group_size(puzzle.cars@, c.color) {
                    Err(SimResult::WrongOrder { car_color: c.color, car_id: c.id })
                } else {
                    caboose_from(puzzle, mark_done(cars, c.color), i + 1)
                },
            }
        }
    }
}

pub open spec fn car_positions(cars: Seq<CarState>) -> Seq<Pos> {
    cars.map_values(|c: CarState| c.pos)
}

pub open spec fn car_dirs(cars: Seq<CarState>) -> Seq<Direction> {
    cars.map_values(|c: CarState| c.dir)
}

/// One step of the simulation: `Err` with the outcome when it ends in this step.
pub open spec fn sim_step(puzzle: &Puzzle, pl: Map<Pos, TrackType>, st: SimState) -> Result<SimState, SimResult> {
    if all_done(st.cars) {
        Err(SimResult::Win)
    } else {
        match move_from(puzzle, pl, car_positions(st.cars), car_dirs(st.cars), st, 0) {
            Err(r) => Err(r),
            Ok(st1) => {
                let cars2 = couple_from(st1.cars, car_positions(st.cars), 0);
                match caboose_from(puzzle, cars2, 0) {
                    Err(r) => Err(r),
                    Ok(cars3) => Ok(SimState { cars: cars3, ..st1 }),
                }
            },
        }
    }
}

/// The outcome of running at most `steps` more steps from `st`; `Loop` when they run out.
pub open spec fn sim_run(puzzle: &Puzzle, pl: Map<Pos, TrackType>, st: SimState, steps: nat) -> SimResult
    decreases steps,
{
    if steps == 0 {
        SimResult::Loop
    } else {
        match sim_step(puzzle, pl, st) {
            Err(r) => r,
            Ok(st2) => sim_run(puzzle, pl, st2, (steps - 1) as nat),
        }
    }
}

/// The outcome of running the puzzle's trains over the fixed track and the placements.
pub open spec fn spec_simulate(puzzle: &Puzzle, pl: Map<Pos, TrackType>) -> SimResult {
    sim_run(puzzle, pl, initial_state(puzzle), MAX_STEPS as nat)
}


// ── Executable simulation ───────────────────────────────────────────────────

/// The tunnel end that a tunnel lookup gives back is an end of some tunnel, so its
/// coordinates fit.
pub proof fn lemma_tunnel_exit_ok(puzzle: &Puzzle, i: int, pos: Pos, facing: Direction)
    requires
        coords_fit(puzzle),
        0 <= i,
    ensures
        tunnel_exit_from(puzzle.tunnels@, i, pos, facing) matches Some((p, _)) ==> coord_ok(p),
    decreases puzzle.tunnels@.len() - i,
{
    if i < puzzle.tunnels@.len() {
        assert(tunnel_coords_ok(puzzle.tunnels@[i]));
        lemma_tunnel_exit_ok(puzzle, i + 1, pos, facing);
    }
}

/// The grid neighbour, computed with `i32` coordinates.
pub(crate) fn step_target(puzzle: &Puzzle, pos: Pos, dir: Direction) -> (r: Option<Pos>)
    requires
        puzzle.rows <= i32::MAX,
        puzzle.cols <= i32::MAX,
        coord_ok(pos),
    ensures
        r == neighbor(puzzle, pos, dir),
        r matches Some(np) ==> np.0 < puzzle.rows && np.1 < puzzle.cols && coord_ok(np),
{
    let (dr, dc) = dir.delta();
    let nr = pos.0 as i32 + dr;
    let nc = pos.1 as i32 + dc;
    if !puzzle.in_bounds(nr, nc) {
        return None;
    }
    Some((nr as usize, nc as usize))
}

/// Move a single car one cell forward from (pos, dir): the new (pos, dir), or None on a crash.
fn advance_one(
    puzzle: &Puzzle,
    placements: &PosMap<TrackType>,
    switches: &mut PosMap<bool>,
    pos: Pos,
    dir: Direction,
) -> (r: Option<(Pos, Direction)>)
    requires
        puzzle.wf(),
        coords_fit(puzzle),
        coord_ok(pos),
    ensures
        (r, final(switches)@) == spec_advance(puzzle, placements@, old(switches)@, pos, dir),
        r matches Some((p, _)) ==> coord_ok(p),
{
    let np = match step_target(puzzle, pos, dir) {
        Some(np) => np,
        None => return None,
    };
    match &puzzle.grid[np.0][np.1] {
        CellKind::Tunnel(_) => {
            proof {
                lemma_tunnel_exit_ok(puzzle, 0, np, dir);
            }
            puzzle.tunnel_exit(np, dir)
        },
        CellKind::Terminal => Some((np, dir)),
        CellKind::Wall => None,
        _ => {
            let track = match puzzle.track_at(np, placements) {
                Some(t) => t,
                None => return None,
            };
            let entry_side = dir.opposite();
            let flipped = match switches.get(np) {
                Some(b) => b,
                None => false,
            };
            let (exit_side, toggle) = match track.route(entry_side, flipped) {
                Some(x) => x,
                None => return None,
            };
            if toggle {
                switches.insert(np, !flipped);
            }
            Some((np, exit_side))
        },
    }
}

/// Leaders are valid indices and positions fit `i32`.
pub open spec fn cars_ok(cars: Seq<CarState>, n: nat) -> bool {
    &&& cars.len() == n
    &&& forall|i: int| 0 <= i < n ==> ((#[trigger] cars[i]).leader matches Some(l) ==> l < n)
    &&& forall|i: int| 0 <= i < n ==> coord_ok((#[trigger] cars[i]).pos)
}

/// The visited sets kept as one list of (car index, position, direction) entries.
pub open spec fn vis_sets(flat: Seq<(usize, Pos, Direction)>, n: nat) -> Seq<Set<(Pos, Direction)>> {
    Seq::new(n, |i: int| Set::new(|pd: (Pos, Direction)| flat.contains((i as usize, pd.0, pd.1))))
}

proof fn lemma_vis_push(flat: Seq<(usize, Pos, Direction)>, n: nat, i: usize, p: Pos, d: Direction)
    requires
        i < n,
        n <= usize::MAX,
    ensures
        vis_sets(flat.push((i, p, d)), n) == vis_sets(flat, n).update(i as int, vis_sets(flat, n)[i as int].insert((p, d))),
{
    let f2 = flat.push((i, p, d));
    let a = vis_sets(f2, n);
    let b = vis_sets(flat, n).update(i as int, vis_sets(flat, n)[i as int].insert((p, d)));
    assert forall|k: int| 0 <= k < n implies a[k] =~= b[k] by {
        assert forall|pd: (Pos, Direction)| a[k].contains(pd) <==> b[k].contains(pd) by {
            let e = (k as usize, pd.0, pd.1);
            assert(a[k].contains(pd) == f2.contains(e));
            if k == i {
                assert(b[k].contains(pd) == (flat.contains(e) || pd == (p, d)));
            } else {
                assert(b[k].contains(pd) == flat.contains(e));
            }
            if f2.contains(e) {
                let j = choose|j: int| 0 <= j < f2.len() && f2[j] == e;
                if j < flat.len() {
                    assert(flat[j] == e);
                } else {
                    assert(e == (i, p, d));
                }
            }
            if flat.contains(e) {
                let j = choose|j: int| 0 <= j < flat.len() && flat[j] == e;
                assert(f2[j] == e);
            }
            if k == i && pd == (p, d) {
                assert(f2[flat.len() as int] == e);
            }
        }
    }
    assert(a =~= b);
}

/// Whether `(i, p, d)` is in the visited list.
fn visited_contains(flat: &Vec<(usize, Pos, Direction)>, i: usize, p: Pos, d: Direction) -> (r: bool)
    ensures
        r == flat@.contains((i, p, d)),
{
    let mut k: usize = 0;
    while k < flat.len()
        invariant
            k <= flat@.len(),
            forall|j: int| 0 <= j < k ==> flat@[j] != (i, p, d),
        decreases flat@.len() - k,
    {
        let e = flat[k];
        if e.0 == i && pos_eq(e.1, p) && e.2 == d {
            assert(flat@[k as int] == (i, p, d));
            return true;
        }
        k = k + 1;
    }
    false
}

/// The movement phase of one step.
fn move_cars(
    puzzle: &Puzzle,
    placements: &PosMap<TrackType>,
    prev_pos: &Vec<Pos>,
    prev_dir: &Vec<Direction>,
    cars: &mut Vec<CarState>,
    switches: &mut PosMap<bool>,
    visited: &mut Vec<(usize, Pos, Direction)>,
) -> (r: Option<SimResult>)
    requires
        puzzle.wf(),
        coords_fit(puzzle),
        cars_ok(old(cars)@, old(cars)@.len()),
        prev_pos@.len() == old(cars)@.len(),
        prev_dir@.len() == old(cars)@.len(),
        forall|i: int| 0 <= i < prev_pos@.len() ==> coord_ok(#[trigger] prev_pos@[i]),
    ensures
        match move_from(
            puzzle,
            placements@,
            prev_pos@,
            prev_dir@,
            SimState { cars: old(cars)@, sw: old(switches)@, visited: vis_sets(old(visited)@, old(cars)@.len()) },
            0,
        ) {
            Ok(st) => r is None && final(cars)@ == st.cars && final(switches)@ == st.sw
                && vis_sets(final(visited)@, old(cars)@.len()) == st.visited
                && cars_ok(final(cars)@, old(cars)@.len()),
            Err(res) => r == Some(res),
        },
{
    let ghost n = cars@.len();
    let ghost start = SimState { cars: cars@, sw: switches@, visited: vis_sets(visited@, n) };
    let mut i: usize = 0;
    while i < cars.len()
        invariant
            puzzle.wf(),
            coords_fit(puzzle),
            cars@.len() == n,
            i <= n,
            cars_ok(cars@, n),
            prev_pos@.len() == n,
            prev_dir@.len() == n,
            start == (SimState { cars: old(cars)@, sw: old(switches)@, visited: vis_sets(old(visited)@, old(cars)@.len()) }),
            forall|k: int| 0 <= k < prev_pos@.len() ==> coord_ok(#[trigger] prev_pos@[k]),
            move_from(puzzle, placements@, prev_pos@, prev_dir@, start, 0) == move_from(
                puzzle,
                placements@,
                prev_pos@,
                prev_dir@,
                SimState { cars: cars@, sw: switches@, visited: vis_sets(visited@, n) },
                i as int,
            ),
        decreases n - i,
    {
        let c = cars[i];
        let ghost cur = SimState { cars: cars@, sw: switches@, visited: vis_sets(visited@, n) };
        if c.done {
            i = i + 1;
            continue;
        }
        match c.leader {
            Some(l) => {
                let np = prev_pos[l];
                let nd = prev_dir[l];
                cars.set(i, CarState { pos: np, dir: nd, ..c });
            },
            None => {
                match advance_one(puzzle, placements, switches, c.pos, c.dir) {
                    Some((np, nd)) => {
                        if visited_contains(visited, i, np, nd) {
                            assert(cur.visited[i as int].contains((np, nd)));
                            assert(move_from(puzzle, placements@, prev_pos@, prev_dir@, cur, i as int) == Err::<SimState, SimResult>(SimResult::Loop));
                            return Some(SimResult::Loop);
                        }
                        proof {
                            lemma_vis_push(visited@, n, i, np, nd);
                        }
                        visited.push((i, np, nd));
                        cars.set(i, CarState { pos: np, dir: nd, ..c });
                    },
                    None => {
                        assert(move_from(puzzle, placements@, prev_pos@, prev_dir@, cur, i as int) == Err::<SimState, SimResult>(SimResult::Crash { car_color: c.color, car_id: c.id }));
                        return Some(SimResult::Crash { car_color: c.color, car_id: c.id });
                    },
                }
            },
        }
        i = i + 1;
    }
    None
}

/// The first car that is not done with the given color and id.
fn find_car_exec(cars: &Vec<CarState>, color: u8, id: u8) -> (r: Option<usize>)
    ensures
        r == find_car(cars@, color, id, 0),
        r matches Some(i) ==> i < cars@.len(),
{
    let mut k: usize = 0;
    while k < cars.len()
        invariant
            k <= cars@.len(),
            find_car(cars@, color, id, 0) == find_car(cars@, color, id, k as int),
        decreases cars@.len() - k,
    {
        if !cars[k].done && cars[k].color == color && cars[k].id == id {
            return Some(k);
        }
        k = k + 1;
    }
    None
}

/// The coupling phase of one step.
fn couple_cars(cars: &mut Vec<CarState>, prev_pos: &Vec<Pos>)
    requires
        cars_ok(old(cars)@, old(cars)@.len()),
        prev_pos@.len() == old(cars)@.len(),
    ensures
        final(cars)@ == couple_from(old(cars)@, prev_pos@, 0),
        cars_ok(final(cars)@, old(cars)@.len()),
{
    let ghost n = cars@.len();
    let ghost start = cars@;
    let mut j: usize = 0;
    while j < cars.len()
        invariant
            cars@.len() == n,
            j <= n,
            cars_ok(cars@, n),
            prev_pos@.len() == n,
            start == old(cars)@,
            couple_from(start, prev_pos@, 0) == couple_from(cars@, prev_pos@, j as int),
        decreases n - j,
    {
        let c = cars[j];
        if c.done || c.leader.is_some() {
            j = j + 1;
            continue;
        }
        let front = c.id.wrapping_sub(1);
        assert(front == front_id(c.id));
        if front == 0 {
            j = j + 1;
            continue;
        }
        match find_car_exec(cars, c.color, front) {
            Some(i) => {
                if pos_eq(c.pos, prev_pos[i]) && c.dir == cars[i].dir {
                    cars.set(j, CarState { leader: Some(i), ..c });
                }
            },
            None => {},
        }
        j = j + 1;
    }
}

/// Count how many cars are in the chain rooted at `leader_idx` (including the leader).
fn count_chain(cars: &Vec<CarState>, leader_idx: usize) -> (r: usize)
    requires
        leader_idx < cars@.len(),
        cars_ok(cars@, cars@.len()),
    ensures
        r == spec_count_chain(cars@, leader_idx as int),
{
    let color = cars[leader_idx].color;
    let mut count: usize = 1;
    let mut j: usize = 0;
    while j < cars.len()
        invariant
            leader_idx < cars@.len(),
            cars_ok(cars@, cars@.len()),
            color == cars@[leader_idx as int].color,
            j <= cars@.len(),
            count == 1 + chain_count_upto(cars@, leader_idx as int, j as int),
            count <= j + (if leader_idx >= j { 1int } else { 0int }),
        decreases cars@.len() - j,
    {
        let car = cars[j];
        if j == leader_idx || car.done || car.color != color {
            j = j + 1;
            continue;
        }
        let mut cur: usize = j;
        let mut steps: usize = 0;
        let mut reached = false;
        loop
            invariant_except_break
                !reached,
                cars_ok(cars@, cars@.len()),
                cur < cars@.len(),
                steps <= cars@.len(),
                chain_reaches(cars@, j as int, leader_idx as int, 0) == chain_reaches(cars@, cur as int, leader_idx as int, steps as nat),
            ensures
                reached == chain_reaches(cars@, j as int, leader_idx as int, 0),
            decreases cars@.len() - steps,
        {
            if cur == leader_idx {
                reached = true;
                break;
            }
            match cars[cur].leader {
                Some(next) => {
                    if steps >= cars.len() {
                        break;
                    }
                    cur = next;
                    steps = steps + 1;
                },
                None => {
                    break;
                },
            }
        }
        if reached {
            count = count + 1;
        }
        j = j + 1;
    }
    count
}

/// The number of cars of a color.
fn count_group(cars: &Vec<crate::puzzle::Car>, color: u8) -> (r: usize)
    ensures
        r == group_size(cars@, color),
{
    let mut r: usize = 0;
    let mut i: usize = 0;
    while i < cars.len()
        invariant
            i <= cars@.len(),
            r == group_size(cars@.take(i as int), color),
            r <= i,
        decreases cars@.len() - i,
    {
        assert(cars@.take(i + 1).drop_last() == cars@.take(i as int));
        if cars[i].color == color {
            r = r + 1;
        }
        i = i + 1;
    }
    assert(cars@.take(cars@.len() as int) == cars@);
    r
}

/// The first caboose of a color at a position.
fn find_caboose_exec(puzzle: &Puzzle, color: u8, pos: Pos) -> (r: Option<crate::puzzle::Caboose>)
    ensures
        r == find_caboose(puzzle.cabooses@, color, pos, 0),
{
    let mut k: usize = 0;
    while k < puzzle.cabooses.len()
        invariant
            k <= puzzle.cabooses@.len(),
            find_caboose(puzzle.cabooses@, color, pos, 0) == find_caboose(puzzle.cabooses@, color, pos, k as int),
        decreases puzzle.cabooses@.len() - k,
    {
        let cab = puzzle.cabooses[k];
        if cab.color == color && cab.row == pos.0 && cab.col == pos.1 {
            return Some(cab);
        }
        k = k + 1;
    }
    None
}

/// The caboose phase of one step.
fn caboose_cars(puzzle: &Puzzle, cars: &mut Vec<CarState>) -> (r: Option<SimResult>)
    requires
        cars_ok(old(cars)@, old(cars)@.len()),
    ensures
        match caboose_from(puzzle, old(cars)@, 0) {
            Ok(cs) => r is None && final(cars)@ == cs && cars_ok(final(cars)@, old(cars)@.len()),
            Err(res) => r == Some(res),
        },
{
    let ghost n = cars@.len();
    let ghost start = cars@;
    let mut i: usize = 0;
    while i < cars.len()
        invariant
            cars@.len() == n,
            i <= n,
            cars_ok(cars@, n),
            start == old(cars)@,
            caboose_from(puzzle, start, 0) == caboose_from(puzzle, cars@, i as int),
        decreases n - i,
    {
        let c = cars[i];
        if c.done {
            i = i + 1;
            continue;
        }
        let ghost cur = cars@;
        match find_caboose_exec(puzzle, c.color, c.pos) {
            None => {},
            Some(cab) => {
                if c.id != 1 {
                    assert(caboose_from(puzzle, cur, i as int) == Err::<Seq<CarState>, SimResult>(SimResult::WrongOrder { car_color: c.color, car_id: c.id }));
                    return Some(SimResult::WrongOrder { car_color: c.color, car_id: c.id });
                }
                if c.dir != cab.entry_side.opposite() {
                    assert(caboose_from(puzzle, cur, i as int) == Err::<Seq<CarState>, SimResult>(SimResult::Crash { car_color: c.color, car_id: c.id }));
                    return Some(SimResult::Crash { car_color: c.color, car_id: c.id });
                }
                let coupled_count = count_chain(cars, i);
                let expected = count_group(&puzzle.cars, c.color);
                if coupled_count < expected {
                    return Some(SimResult::WrongOrder { car_color: c.color, car_id: c.id });
                }
                let ghost before = cars@;
                let mut k: usize = 0;
                while k < cars.len()
                    invariant
                        cars@.len() == n,
                        before.len() == n,
                        k <= n,
                        forall|m: int| 0 <= m < k ==> cars@[m] == (if before[m].color == c.color {
                            CarState { done: true, ..before[m] }
                        } else {
                            before[m]
                        }),
                        forall|m: int| k <= m < n ==> cars@[m] == before[m],
                    decreases n - k,
                {
                    let ck = cars[k];
                    if ck.color == c.color {
                        cars.set(k, CarState { done: true, ..ck });
                    }
                    k = k + 1;
                }
                assert(cars@ =~= mark_done(before, c.color));
            },
        }
        i = i + 1;
    }
    None
}

pub open spec fn exec_state(cars: Seq<CarState>, sw: Map<Pos, bool>, flat: Seq<(usize, Pos, Direction)>) -> SimState {
    SimState { cars, sw, visited: vis_sets(flat, cars.len()) }
}

/// Runs the trains over the fixed track and the placements until every group is home,
/// a car crashes or arrives out of order, or the run is judged a loop.
pub fn simulate(puzzle: &Puzzle, placements: &PosMap<TrackType>) -> (r: SimResult)
    requires
        sim_ready(puzzle),
    ensures
        r == spec_simulate(puzzle, placements@),
{
    let mut cars: Vec<CarState> = Vec::new();
    let mut i: usize = 0;
    while i < puzzle.cars.len()
        invariant
            i <= puzzle.cars@.len(),
            cars@ == puzzle.cars@.take(i as int).map_values(|c: crate::puzzle::Car| initial_car(c)),
        decreases puzzle.cars@.len() - i,
    {
        let c = puzzle.cars[i];
        cars.push(CarState { id: c.id, color: c.color, pos: (c.row, c.col), dir: c.dir, leader: None, done: false });
        assert(puzzle.cars@.take(i + 1).map_values(|c: crate::puzzle::Car| initial_car(c)) == puzzle.cars@.take(
            i as int,
        ).map_values(|c: crate::puzzle::Car| initial_car(c)).push(initial_car(c)));
        i = i + 1;
    }
    assert(puzzle.cars@.take(puzzle.cars@.len() as int) == puzzle.cars@);
    let ghost n = cars@.len();
    let mut switches: PosMap<bool> = PosMap::new();
    let mut visited: Vec<(usize, Pos, Direction)> = Vec::new();
    proof {
        assert forall|k: int| 0 <= k < n implies vis_sets(visited@, n)[k] =~= initial_state(puzzle).visited[k] by {}
        assert(vis_sets(visited@, n) =~= initial_state(puzzle).visited);
        assert(exec_state(cars@, switches@, visited@) == initial_state(puzzle));
        assert forall|k: int| 0 <= k < n implies coord_ok((#[trigger] cars@[k]).pos) by {
            assert(coord_ok(puzzle.cars@[k].row_col()));
        }
    }
    let mut step: usize = 0;
    while step < MAX_STEPS
        invariant
            sim_ready(puzzle),
            step <= MAX_STEPS,
            cars_ok(cars@, n),
            spec_simulate(puzzle, placements@) == sim_run(
                puzzle,
                placements@,
                exec_state(cars@, switches@, visited@),
                (MAX_STEPS - step) as nat,
            ),
        decreases MAX_STEPS - step,
    {
        let ghost st = exec_state(cars@, switches@, visited@);
        let mut all = true;
        let mut k: usize = 0;
        while k < cars.len()
            invariant
                k <= cars@.len(),
                all == (forall|m: int| 0 <= m < k ==> (#[trigger] cars@[m]).done),
            decreases cars@.len() - k,
        {
            if !cars[k].done {
                all = false;
            }
            k = k + 1;
        }
        if all {
            return SimResult::Win;
        }
        let mut prev_pos: Vec<Pos> = Vec::new();
        let mut prev_dir: Vec<Direction> = Vec::new();
        let mut k: usize = 0;
        while k < cars.len()
            invariant
                k <= cars@.len(),
                prev_pos@ == car_positions(cars@).take(k as int),
                prev_dir@ == car_dirs(cars@).take(k as int),
            decreases cars@.len() - k,
        {
            prev_pos.push(cars[k].pos);
            prev_dir.push(cars[k].dir);
            assert(car_positions(cars@).take(k + 1) == car_positions(cars@).take(k as int).push(cars@[k as int].pos));
            assert(car_dirs(cars@).take(k + 1) == car_dirs(cars@).take(k as int).push(cars@[k as int].dir));
            k = k + 1;
        }
        assert(prev_pos@ == car_positions(cars@).take(cars@.len() as int));
        assert(prev_pos@ == car_positions(cars@));
        assert(prev_dir@ == car_dirs(cars@).take(cars@.len() as int));
        assert(prev_dir@ == car_dirs(cars@));
        if let Some(res) = move_cars(puzzle, placements, &prev_pos, &prev_dir, &mut cars, &mut switches, &mut visited) {
            return res;
        }
        couple_cars(&mut cars, &prev_pos);
        if let Some(res) = caboose_cars(puzzle, &mut cars) {
            return res;
        }
        step = step + 1;
    }
    SimResult::Loop
}

/// A color with cars has a car of that color.
proof fn lemma_group_has_car(cars: Seq<crate::puzzle::Car>, c: u8)
    requires
        group_size(cars, c) > 0,
    ensures
        exists|i: int| 0 <= i < cars.len() && (#[trigger] cars[i]).color == c,
    decreases cars.len(),
{
    if cars.last().color == c {
        assert(cars[cars.len() - 1].color == c);
    } else {
        lemma_group_has_car(cars.drop_last(), c);
        let i = choose|i: int| 0 <= i < cars.len() - 1 && (#[trigger] cars.drop_last()[i]).color == c;
        assert(cars[i] == cars.drop_last()[i]);
    }
}

/// Whether the grid holds every cell of the puzzle's size (`wf`).
pub fn check_wf(puzzle: &Puzzle) -> (r: bool)
    ensures
        r == puzzle.wf(),
{
    if puzzle.grid.len() < puzzle.rows {
        return false;
    }
    let mut i: usize = 0;
    while i < puzzle.rows
        invariant
            i <= puzzle.rows,
            puzzle.grid@.len() >= puzzle.rows,
            forall|r: int| 0 <= r < i ==> #[trigger] puzzle.grid@[r]@.len() >= puzzle.cols,
        decreases puzzle.rows - i,
    {
        if puzzle.grid[i].len() < puzzle.cols {
            return false;
        }
        i = i + 1;
    }
    true
}

fn coord_fits(p: Pos) -> (r: bool)
    ensures
        r == coord_ok(p),
{
    p.0 < 0x7fff_ffff && p.1 < 0x7fff_ffff
}

/// Whether a puzzle meets what simulating and solving it need (`sim_ready`).
pub fn check_sim_ready(puzzle: &Puzzle) -> (r: bool)
    ensures
        r == sim_ready(puzzle),
{
    if !check_wf(puzzle) {
        return false;
    }
    if puzzle.rows > 0x7fff_ffff || puzzle.cols > 0x7fff_ffff {
        return false;
    }
    let mut i: usize = 0;
    while i < puzzle.cars.len()
        invariant
            i <= puzzle.cars@.len(),
            forall|k: int| 0 <= k < i ==> coord_ok((#[trigger] puzzle.cars@[k]).row_col()),
            forall|k: int| 0 <= k < i ==> group_size(puzzle.cars@, (#[trigger] puzzle.cars@[k]).color) <= 255,
        decreases puzzle.cars@.len() - i,
    {
        let c = puzzle.cars[i];
        if !coord_fits((c.row, c.col)) {
            return false;
        }
        if count_group(&puzzle.cars, c.color) > 255 {
            assert(!(forall|col: u8| group_size(puzzle.cars@, col) <= 255));
            return false;
        }
        i = i + 1;
    }
    let mut j: usize = 0;
    while j < puzzle.cabooses.len()
        invariant
            j <= puzzle.cabooses@.len(),
            forall|k: int| 0 <= k < j ==> coord_ok((#[trigger] puzzle.cabooses@[k]).row_col()),
        decreases puzzle.cabooses@.len() - j,
    {
        let c = puzzle.cabooses[j];
        if !coord_fits((c.row, c.col)) {
            assert(!coord_ok(puzzle.cabooses@[j as int].row_col()));
            return false;
        }
        j = j + 1;
    }
    let mut t: usize = 0;
    while t < puzzle.tunnels.len()
        invariant
            t <= puzzle.tunnels@.len(),
            forall|k: int| 0 <= k < t ==> tunnel_coords_ok(#[trigger] puzzle.tunnels@[k]),
        decreases puzzle.tunnels@.len() - t,
    {
        let tn = puzzle.tunnels[t];
        if !coord_fits(tn.entry_pos) || !coord_fits(tn.exit_pos) {
            assert(!tunnel_coords_ok(puzzle.tunnels@[t as int]));
            return false;
        }
        t = t + 1;
    }
    proof {
        assert forall|col: u8| group_size(puzzle.cars@, col) <= 255 by {
            if group_size(puzzle.cars@, col) > 0 {
                lemma_group_has_car(puzzle.cars@, col);
            }
        }
    }
    true
}

// ── Partial simulation ──────────────────────────────────────────────────────

/// Whether `pl` settles where a free car at `(pos, dir)` goes next: the cell it steps into
/// is off the grid, or anything but a placeable cell that `pl` leaves empty.
pub open spec fn step_settled(puzzle: &Puzzle, pl: Map<Pos, TrackType>, pos: Pos, dir: Direction) -> bool {
    match neighbor(puzzle, pos, dir) {
        None => true,
        Some(np) => !(puzzle.cell(np) == CellKind::Placeable && !pl.contains_key(np)),
    }
}

/// How far a run over part of the track gets: on to a new state, to an outcome, or to a
/// move that the placed track does not settle.
pub enum Prefix {
    Go(SimState),
    End(SimResult),
    Open,
}

/// The movement phase of `move_from`, stopping with `Open` at the first free car whose
/// next cell is a placeable cell still left empty.
pub open spec fn move_prefix(
    puzzle: &Puzzle,
    pl: Map<Pos, TrackType>,
    prev_pos: Seq<Pos>,
    prev_dir: Seq<Direction>,
    st: SimState,
    i: int,
) -> Prefix
    decreases st.cars.len() - i,
{
    if i < 0 || i >= st.cars.len() {
        Prefix::Go(st)
    } else {
        let c = st.cars[i];
        if c.done {
            move_prefix(puzzle, pl, prev_pos, prev_dir, st, i + 1)
        } else {
            match c.leader {
                Some(l) => move_prefix(
                    puzzle,
                    pl,
                    prev_pos,
                    prev_dir,
                    SimState {
                        cars: st.cars.update(i, CarState { pos: prev_pos[l as int], dir: prev_dir[l as int], ..c }),
                        ..st
                    },
                    i + 1,
                ),
                None => if !step_settled(puzzle, pl, c.pos, c.dir) {
                    Prefix::Open
                } else {
                    match spec_advance(puzzle, pl, st.sw, c.pos, c.dir) {
                        (None, _) => Prefix::End(SimResult::Crash { car_color: c.color, car_id: c.id }),
                        (Some((np, nd)), sw2) => if st.visited[i].contains((np, nd)) {
                            Prefix::End(SimResult::Loop)
                        } else {
                            move_prefix(
                                puzzle,
                                pl,
                                prev_pos,
                                prev_dir,
                                SimState {
                                    cars: st.cars.update(i, CarState { pos: np, dir: nd, ..c }),
                                    sw: sw2,
                                    visited: st.visited.update(i, st.visited[i].insert((np, nd))),
                                },
                                i + 1,
                            )
                        },
                    }
                },
            }
        }
    }
}

/// One step of `sim_step` over part of the track.
pub open spec fn step_prefix(puzzle: &Puzzle, pl: Map<Pos, TrackType>, st: SimState) -> Prefix {
    if all_done(st.cars) {
        Prefix::End(SimResult::Win)
    } else {
        match move_prefix(puzzle, pl, car_positions(st.cars), car_dirs(st.cars), st, 0) {
            Prefix::Go(st1) => {
                let cars2 = couple_from(st1.cars, car_positions(st.cars), 0);
                match caboose_from(puzzle, cars2, 0) {
                    Err(r) => Prefix::End(r),
                    Ok(cars3) => Prefix::Go(SimState { cars: cars3, ..st1 }),
                }
            },
            other => other,
        }
    }
}

/// The run of `sim_run` over part of the track: the outcome, or `None` when the run comes
/// to a move that the placed track does not settle.
pub open spec fn run_prefix(puzzle: &Puzzle, pl: Map<Pos, TrackType>, st: SimState, steps: nat) -> Option<SimResult>
    decreases steps,
{
    if steps == 0 {
        Some(SimResult::Loop)
    } else {
        match step_prefix(puzzle, pl, st) {
            Prefix::End(r) => Some(r),
            Prefix::Open => None,
            Prefix::Go(st2) => run_prefix(puzzle, pl, st2, (steps - 1) as nat),
        }
    }
}

/// False exactly when the trains, run over the fixed track and the placements, come to an
/// outcome other than a win before any car needs a cell that is still empty.
pub open spec fn spec_partial_simulate(puzzle: &Puzzle, pl: Map<Pos, TrackType>) -> bool {
    match run_prefix(puzzle, pl, initial_state(puzzle), MAX_STEPS as nat) {
        Some(r) => r == SimResult::Win,
        None => true,
    }
}

/// `s` completes `pl`: it keeps every placement of `pl` and adds pieces only on
/// placeable cells.
pub open spec fn completes(puzzle: &Puzzle, pl: Map<Pos, TrackType>, s: Map<Pos, TrackType>) -> bool {
    &&& forall|p: Pos| #[trigger] pl.contains_key(p) ==> s.contains_key(p) && s[p] == pl[p]
    &&& forall|p: Pos| #[trigger] s.contains_key(p) && !pl.contains_key(p) ==> puzzle.cell(p) == CellKind::Placeable
}

proof fn lemma_advance_agrees(
    puzzle: &Puzzle,
    pl: Map<Pos, TrackType>,
    s: Map<Pos, TrackType>,
    sw: Map<Pos, bool>,
    pos: Pos,
    dir: Direction,
)
    requires
        completes(puzzle, pl, s),
        step_settled(puzzle, pl, pos, dir),
    ensures
        spec_advance(puzzle, pl, sw, pos, dir) == spec_advance(puzzle, s, sw, pos, dir),
{
    if let Some(np) = neighbor(puzzle, pos, dir) {
        if pl.contains_key(np) {
            assert(s.contains_key(np) && s[np] == pl[np]);
        } else if s.contains_key(np) {
            assert(puzzle.cell(np) == CellKind::Placeable);
        }
        assert(puzzle.spec_track_at(np, pl) == puzzle.spec_track_at(np, s) || puzzle.cell(np) is Tunnel
            || puzzle.cell(np) is Terminal || puzzle.cell(np) is Wall);
    }
}

proof fn lemma_move_agrees(
    puzzle: &Puzzle,
    pl: Map<Pos, TrackType>,
    s: Map<Pos, TrackType>,
    prev_pos: Seq<Pos>,
    prev_dir: Seq<Direction>,
    st: SimState,
    i: int,
)
    requires
        completes(puzzle, pl, s),
        0 <= i,
    ensures
        match move_prefix(puzzle, pl, prev_pos, prev_dir, st, i) {
            Prefix::Go(st2) => move_from(puzzle, s, prev_pos, prev_dir, st, i) == Ok::<SimState, SimResult>(st2),
            Prefix::End(r) => move_from(puzzle, s, prev_pos, prev_dir, st, i) == Err::<SimState, SimResult>(r),
            Prefix::Open => true,
        },
    decreases st.cars.len() - i,
{
    if i < st.cars.len() {
        let c = st.cars[i];
        if c.done {
            lemma_move_agrees(puzzle, pl, s, prev_pos, prev_dir, st, i + 1);
        } else {
            match c.leader {
                Some(l) => {
                    lemma_move_agrees(
                        puzzle,
                        pl,
                        s,
                        prev_pos,
                        prev_dir,
                        SimState {
                            cars: st.cars.update(i, CarState { pos: prev_pos[l as int], dir: prev_dir[l as int], ..c }),
                            ..st
                        },
                        i + 1,
                    );
                },
                None => {
                    if step_settled(puzzle, pl, c.pos, c.dir) {
                        lemma_advance_agrees(puzzle, pl, s, st.sw, c.pos, c.dir);
                        match spec_advance(puzzle, pl, st.sw, c.pos, c.dir) {
                            (None, _) => {},
                            (Some((np, nd)), sw2) => {
                                if !st.visited[i].contains((np, nd)) {
                                    lemma_move_agrees(
                                        puzzle,
                                        pl,
                                        s,
                                        prev_pos,
                                        prev_dir,
                                        SimState {
                                            cars: st.cars.update(i, CarState { pos: np, dir: nd, ..c }),
                                            sw: sw2,
                                            visited: st.visited.update(i, st.visited[i].insert((np, nd))),
                                        },
                                        i + 1,
                                    );
                                }
                            },
                        }
                    }
                },
            }
        }
    }
}

proof fn lemma_run_agrees(puzzle: &Puzzle, pl: Map<Pos, TrackType>, s: Map<Pos, TrackType>, st: SimState, steps: nat)
    requires
        completes(puzzle, pl, s),
    ensures
        run_prefix(puzzle, pl, st, steps) matches Some(r) ==> sim_run(puzzle, s, st, steps) == r,
    decreases steps,
{
    if steps > 0 && !all_done(st.cars) {
        lemma_move_agrees(puzzle, pl, s, car_positions(st.cars), car_dirs(st.cars), st, 0);
        if let Prefix::Go(st2) = step_prefix(puzzle, pl, st) {
            lemma_run_agrees(puzzle, pl, s, st2, (steps - 1) as nat);
        }
    }
}

/// The partial simulation rejects no placement that can still win: whenever a placement
/// `s` that completes `pl` wins, the partial simulation accepts `pl`.
pub proof fn law_partial_simulate_sound(puzzle: &Puzzle, pl: Map<Pos, TrackType>, s: Map<Pos, TrackType>)
    requires
        completes(puzzle, pl, s),
        spec_simulate(puzzle, s) == SimResult::Win,
    ensures
        spec_partial_simulate(puzzle, pl),
{
    lemma_run_agrees(puzzle, pl, s, initial_state(puzzle), MAX_STEPS as nat);
}

/// Every placeable cell of the grid holds a piece of `pl`.
pub open spec fn fills_grid(puzzle: &Puzzle, pl: Map<Pos, TrackType>) -> bool {
    forall|p: Pos| puzzle.cell(p) == CellKind::Placeable ==> #[trigger] pl.contains_key(p)
}

proof fn lemma_move_settled(
    puzzle: &Puzzle,
    pl: Map<Pos, TrackType>,
    prev_pos: Seq<Pos>,
    prev_dir: Seq<Direction>,
    st: SimState,
    i: int,
)
    requires
        fills_grid(puzzle, pl),
    ensures
        !(move_prefix(puzzle, pl, prev_pos, prev_dir, st, i) is Open),
    decreases st.cars.len() - i,
{
    if 0 <= i < st.cars.len() {
        let c = st.cars[i];
        if c.done {
            lemma_move_settled(puzzle, pl, prev_pos, prev_dir, st, i + 1);
        } else {
            match c.leader {
                Some(l) => {
                    lemma_move_settled(
                        puzzle,
                        pl,
                        prev_pos,
                        prev_dir,
                        SimState {
                            cars: st.cars.update(i, CarState { pos: prev_pos[l as int], dir: prev_dir[l as int], ..c }),
                            ..st
                        },
                        i + 1,
                    );
                },
                None => {
                    if let Some(np) = neighbor(puzzle, c.pos, c.dir) {
                        if puzzle.cell(np) == CellKind::Placeable {
                            assert(pl.contains_key(np));
                        }
                    }
                    assert(step_settled(puzzle, pl, c.pos, c.dir));
                    match spec_advance(puzzle, pl, st.sw, c.pos, c.dir) {
                        (None, _) => {},
                        (Some((np, nd)), sw2) => {
                            if !st.visited[i].contains((np, nd)) {
                                lemma_move_settled(
                                    puzzle,
                                    pl,
                                    prev_pos,
                                    prev_dir,
                                    SimState {
                                        cars: st.cars.update(i, CarState { pos: np, dir: nd, ..c }),
                                        sw: sw2,
                                        visited: st.visited.update(i, st.visited[i].insert((np, nd))),
                                    },
                                    i + 1,
                                );
                            }
                        },
                    }
                },
            }
        }
    }
}

proof fn lemma_run_settled(puzzle: &Puzzle, pl: Map<Pos, TrackType>, st: SimState, steps: nat)
    requires
        fills_grid(puzzle, pl),
    ensures
        run_prefix(puzzle, pl, st, steps) is Some,
    decreases steps,
{
    if steps > 0 && !all_done(st.cars) {
        lemma_move_settled(puzzle, pl, car_positions(st.cars), car_dirs(st.cars), st, 0);
        if let Prefix::Go(st2) = step_prefix(puzzle, pl, st) {
            lemma_run_settled(puzzle, pl, st2, (steps - 1) as nat);
        }
    }
}

/// On a placement that fills every placeable cell nothing is left open, so the partial
/// simulation is exact: it accepts exactly when the full simulation wins. In particular a
/// car that runs off the grid, into a wall or into a piece closed to it makes it reject.
pub proof fn law_partial_simulate_exact_when_filled(puzzle: &Puzzle, pl: Map<Pos, TrackType>)
    requires
        fills_grid(puzzle, pl),
    ensures
        spec_partial_simulate(puzzle, pl) == (spec_simulate(puzzle, pl) == SimResult::Win),
{
    lemma_run_settled(puzzle, pl, initial_state(puzzle), MAX_STEPS as nat);
    lemma_run_agrees(puzzle, pl, pl, initial_state(puzzle), MAX_STEPS as nat);
}

/// The verdict of the partial simulation on a run's outcome.
pub open spec fn prefix_verdict(o: Option<SimResult>) -> bool {
    match o {
        Some(r) => r == SimResult::Win,
        None => true,
    }
}

fn is_win(r: SimResult) -> (b: bool)
    ensures
        b == (r == SimResult::Win),
{
    match r {
        SimResult::Win => true,
        _ => false,
    }
}

/// Whether the placements settle where a free car at `(pos, dir)` goes next.
fn step_is_settled(puzzle: &Puzzle, placements: &PosMap<TrackType>, pos: Pos, dir: Direction) -> (r: bool)
    requires
        puzzle.wf(),
        coords_fit(puzzle),
        coord_ok(pos),
    ensures
        r == step_settled(puzzle, placements@, pos, dir),
{
    match step_target(puzzle, pos, dir) {
        None => true,
        Some(np) => match &puzzle.grid[np.0][np.1] {
            CellKind::Placeable => placements.contains_key(np),
            _ => true,
        },
    }
}

/// The movement phase of one step, stopping at the first free car whose next cell is a
/// placeable cell still left empty (`Some(None)`).
fn move_cars_prefix(
    puzzle: &Puzzle,
    placements: &PosMap<TrackType>,
    prev_pos: &Vec<Pos>,
    prev_dir: &Vec<Direction>,
    cars: &mut Vec<CarState>,
    switches: &mut PosMap<bool>,
    visited: &mut Vec<(usize, Pos, Direction)>,
) -> (r: Option<Option<SimResult>>)
    requires
        puzzle.wf(),
        coords_fit(puzzle),
        cars_ok(old(cars)@, old(cars)@.len()),
        prev_pos@.len() == old(cars)@.len(),
        prev_dir@.len() == old(cars)@.len(),
        forall|i: int| 0 <= i < prev_pos@.len() ==> coord_ok(#[trigger] prev_pos@[i]),
    ensures
        match move_prefix(
            puzzle,
            placements@,
            prev_pos@,
            prev_dir@,
            SimState { cars: old(cars)@, sw: old(switches)@, visited: vis_sets(old(visited)@, old(cars)@.len()) },
            0,
        ) {
            Prefix::Go(st) => r is None && final(cars)@ == st.cars && final(switches)@ == st.sw
                && vis_sets(final(visited)@, old(cars)@.len()) == st.visited
                && cars_ok(final(cars)@, old(cars)@.len()),
            Prefix::End(res) => r == Some(Some(res)),
            Prefix::Open => r == Some(None::<SimResult>),
        },
{
    let ghost n = cars@.len();
    let ghost start = SimState { cars: cars@, sw: switches@, visited: vis_sets(visited@, n) };
    let mut i: usize = 0;
    while i < cars.len()
        invariant
            puzzle.wf(),
            coords_fit(puzzle),
            cars@.len() == n,
            i <= n,
            cars_ok(cars@, n),
            prev_pos@.len() == n,
            prev_dir@.len() == n,
            start == (SimState { cars: old(cars)@, sw: old(switches)@, visited: vis_sets(old(visited)@, old(cars)@.len()) }),
            forall|k: int| 0 <= k < prev_pos@.len() ==> coord_ok(#[trigger] prev_pos@[k]),
            move_prefix(puzzle, placements@, prev_pos@, prev_dir@, start, 0) == move_prefix(
                puzzle,
                placements@,
                prev_pos@,
                prev_dir@,
                SimState { cars: cars@, sw: switches@, visited: vis_sets(visited@, n) },
                i as int,
            ),
        decreases n - i,
    {
        let c = cars[i];
        let ghost cur = SimState { cars: cars@, sw: switches@, visited: vis_sets(visited@, n) };
        if c.done {
            i = i + 1;
            continue;
        }
        match c.leader {
            Some(l) => {
                let np = prev_pos[l];
                let nd = prev_dir[l];
                cars.set(i, CarState { pos: np, dir: nd, ..c });
            },
            None => {
                if !step_is_settled(puzzle, placements, c.pos, c.dir) {
                    return Some(None);
                }
                match advance_one(puzzle, placements, switches, c.pos, c.dir) {
                    Some((np, nd)) => {
                        if visited_contains(visited, i, np, nd) {
                            assert(cur.visited[i as int].contains((np, nd)));
                            assert(move_prefix(puzzle, placements@, prev_pos@, prev_dir@, cur, i as int) == Prefix::End(SimResult::Loop));
                            return Some(Some(SimResult::Loop));
                        }
                        proof {
                            lemma_vis_push(visited@, n, i, np, nd);
                        }
                        visited.push((i, np, nd));
                        cars.set(i, CarState { pos: np, dir: nd, ..c });
                    },
                    None => {
                        assert(move_prefix(puzzle, placements@, prev_pos@, prev_dir@, cur, i as int) == Prefix::End(SimResult::Crash { car_color: c.color, car_id: c.id }));
                        return Some(Some(SimResult::Crash { car_color: c.color, car_id: c.id }));
                    },
                }
            },
        }
        i = i + 1;
    }
    None
}

/// Quick forward check: runs the trains over the fixed track and the placements as
/// `simulate` does, until some car needs a placeable cell that is still empty. Returns
/// false when the run comes to an outcome other than a win before that: a crash, also at
/// a caboose entered from the wrong side, a group arriving out of order, or a loop (a car
/// coming back to a cell and direction it has had, or the step limit). Such a placement
/// cannot be completed to a winning one (`law_partial_simulate_sound`). The cars run
/// together, coupling as in the full run, not each on its own; a car circling fixed track
/// with no empty cell ahead is therefore a dead end here too, as it is for `simulate`.
pub fn partial_simulate(puzzle: &Puzzle, placements: &PosMap<TrackType>) -> (r: bool)
    requires
        sim_ready(puzzle),
    ensures
        r == spec_partial_simulate(puzzle, placements@),
{
    let mut cars: Vec<CarState> = Vec::new();
    let mut i: usize = 0;
    while i < puzzle.cars.len()
        invariant
            i <= puzzle.cars@.len(),
            cars@ == puzzle.cars@.take(i as int).map_values(|c: crate::puzzle::Car| initial_car(c)),
        decreases puzzle.cars@.len() - i,
    {
        let c = puzzle.cars[i];
        cars.push(CarState { id: c.id, color: c.color, pos: (c.row, c.col), dir: c.dir, leader: None, done: false });
        assert(puzzle.cars@.take(i + 1).map_values(|c: crate::puzzle::Car| initial_car(c)) == puzzle.cars@.take(
            i as int,
        ).map_values(|c: crate::puzzle::Car| initial_car(c)).push(initial_car(c)));
        i = i + 1;
    }
    assert(puzzle.cars@.take(puzzle.cars@.len() as int) == puzzle.cars@);
    let ghost n = cars@.len();
    let mut switches: PosMap<bool> = PosMap::new();
    let mut visited: Vec<(usize, Pos, Direction)> = Vec::new();
    proof {
        assert forall|k: int| 0 <= k < n implies vis_sets(visited@, n)[k] =~= initial_state(puzzle).visited[k] by {}
        assert(vis_sets(visited@, n) =~= initial_state(puzzle).visited);
        assert(exec_state(cars@, switches@, visited@) == initial_state(puzzle));
        assert forall|k: int| 0 <= k < n implies coord_ok((#[trigger] cars@[k]).pos) by {
            assert(coord_ok(puzzle.cars@[k].row_col()));
        }
    }
    let mut step: usize = 0;
    while step < MAX_STEPS
        invariant
            sim_ready(puzzle),
            step <= MAX_STEPS,
            cars_ok(cars@, n),
            spec_partial_simulate(puzzle, placements@) == prefix_verdict(run_prefix(
                puzzle,
                placements@,
                exec_state(cars@, switches@, visited@),
                (MAX_STEPS - step) as nat,
            )),
        decreases MAX_STEPS - step,
    {
        let ghost st = exec_state(cars@, switches@, visited@);
        let mut all = true;
        let mut k: usize = 0;
        while k < cars.len()
            invariant
                k <= cars@.len(),
                all == (forall|m: int| 0 <= m < k ==> (#[trigger] cars@[m]).done),
            decreases cars@.len() - k,
        {
            if !cars[k].done {
                all = false;
            }
            k = k + 1;
        }
        if all {
            return true;
        }
        let mut prev_pos: Vec<Pos> = Vec::new();
        let mut prev_dir: Vec<Direction> = Vec::new();
        let mut k: usize = 0;
        while k < cars.len()
            invariant
                k <= cars@.len(),
                prev_pos@ == car_positions(cars@).take(k as int),
                prev_dir@ == car_dirs(cars@).take(k as int),
            decreases cars@.len() - k,
        {
            prev_pos.push(cars[k].pos);
            prev_dir.push(cars[k].dir);
            assert(car_positions(cars@).take(k + 1) == car_positions(cars@).take(k as int).push(cars@[k as int].pos));
            assert(car_dirs(cars@).take(k + 1) == car_dirs(cars@).take(k as int).push(cars@[k as int].dir));
            k = k + 1;
        }
        assert(prev_pos@ == car_positions(cars@).take(cars@.len() as int));
        assert(prev_pos@ == car_positions(cars@));
        assert(prev_dir@ == car_dirs(cars@).take(cars@.len() as int));
        assert(prev_dir@ == car_dirs(cars@));
        match move_cars_prefix(puzzle, placements, &prev_pos, &prev_dir, &mut cars, &mut switches, &mut visited) {
            Some(Some(res)) => {
                return is_win(res);
            },
            Some(None) => {
                return true;
            },
            None => {},
        }
        couple_cars(&mut cars, &prev_pos);
        if let Some(res) = caboose_cars(puzzle, &mut cars) {
            return is_win(res);
        }
        step = step + 1;
    }
    false
}


} // verus!
