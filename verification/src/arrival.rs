use vstd::prelude::*;
use crate::posmap::Pos;
use crate::puzzle::{Caboose, CellKind, Puzzle};
use crate::reach::{
    edge, edge_via, has_caboose, law_reach_fewer_pieces, law_reach_self, lemma_reach_step, lemma_reach_trans, passable,
    reaches_caboose, spec_can_reach, spec_connectivity_ok, tunnel_lands,
};
use crate::simulation::{
    all_done, caboose_from, car_positions, car_dirs, chain_count_upto, chain_reaches, completes, couple_from, find_caboose, flipped,
    find_car, front_id, group_size, in_chain, initial_state, mark_done, move_from, neighbor, sim_run, sim_step,
    spec_advance, spec_count_chain, spec_simulate, CarState, SimResult, SimState, MAX_STEPS,
};
use crate::solver::connects;
use crate::types::{Direction, TrackType};

verus! {

// ── Where the cars of a winning run have been ───────────────────────────────

/// Every piece of the placement stands on a placeable cell.
pub open spec fn on_placeable(puzzle: &Puzzle, s: Map<Pos, TrackType>) -> bool {
    forall|p: Pos| #[trigger] s.contains_key(p) ==> puzzle.cell(p) == CellKind::Placeable
}

/// A piece lets a train in only through one of its open sides.
proof fn lemma_route_connects(t: TrackType, entry: Direction, f: bool)
    requires
        t.spec_route(entry, f) is Some,
    ensures
        connects(t, entry),
{
    let sides = t.spec_open_sides();
    if sides.len() == 2 {
        assert(sides[0] == entry || sides[1] == entry);
    } else if sides.len() == 3 {
        assert(sides[0] == entry || sides[1] == entry || sides[2] == entry);
    } else {
        assert(sides[0] == entry || sides[1] == entry || sides[2] == entry || sides[3] == entry);
    }
}

/// A car's step over the placement is a move of the reachability search.
proof fn lemma_advance_edge(puzzle: &Puzzle, s: Map<Pos, TrackType>, sw: Map<Pos, bool>, pos: Pos, dir: Direction)
    requires
        on_placeable(puzzle, s),
    ensures
        spec_advance(puzzle, s, sw, pos, dir).0 matches Some((np2, _)) ==> edge(puzzle, s, pos, np2),
{
    if let Some(np) = neighbor(puzzle, pos, dir) {
        match puzzle.cell(np) {
            CellKind::Tunnel(_) => {
                if let Some((x, _)) = puzzle.spec_tunnel_exit(np, dir) {
                    assert(tunnel_lands(puzzle, np, dir, x));
                    assert(edge_via(puzzle, s, pos, x, dir));
                }
            },
            CellKind::Terminal => {
                assert(edge_via(puzzle, s, pos, np, dir));
            },
            CellKind::Wall => {},
            _ => {
                if let Some(t) = puzzle.spec_track_at(np, s) {
                    if t.spec_route(dir.spec_opposite(), flipped(sw, np)) is Some {
                        lemma_route_connects(t, dir.spec_opposite(), flipped(sw, np));
                        if s.contains_key(np) {
                            assert(puzzle.cell(np) == CellKind::Placeable);
                        }
                        assert(passable(puzzle, s, np, dir));
                        assert(edge_via(puzzle, s, pos, np, dir));
                    }
                }
            },
        }
    }
}

/// `a` reaches `b` over the placement (kept opaque so that the run invariant stays cheap).
#[verifier::opaque]
pub open spec fn linked(puzzle: &Puzzle, s: Map<Pos, TrackType>, a: Pos, b: Pos) -> bool {
    spec_can_reach(puzzle, s, a, b)
}

/// A route leads from `start` to some caboose of color `color`.
pub open spec fn home(puzzle: &Puzzle, s: Map<Pos, TrackType>, start: Pos, color: u8) -> bool {
    exists|j: int| 0 <= j < puzzle.cabooses@.len() && (#[trigger] puzzle.cabooses@[j]).color == color
        && linked(puzzle, s, start, puzzle.cabooses@[j].row_col())
}

proof fn lemma_linked_self(puzzle: &Puzzle, s: Map<Pos, TrackType>, a: Pos)
    ensures
        linked(puzzle, s, a, a),
{
    reveal(linked);
    law_reach_self(puzzle, s, a);
}

proof fn lemma_linked_trans(puzzle: &Puzzle, s: Map<Pos, TrackType>, a: Pos, b: Pos, c: Pos)
    requires
        linked(puzzle, s, a, b),
        linked(puzzle, s, b, c),
    ensures
        linked(puzzle, s, a, c),
{
    reveal(linked);
    lemma_reach_trans(puzzle, s, a, b, c);
}

proof fn lemma_linked_step(puzzle: &Puzzle, s: Map<Pos, TrackType>, a: Pos, b: Pos, c: Pos)
    requires
        linked(puzzle, s, a, b),
        edge(puzzle, s, b, c),
    ensures
        linked(puzzle, s, a, c),
{
    reveal(linked);
    lemma_reach_step(puzzle, s, a, b, c);
}

proof fn lemma_home(puzzle: &Puzzle, s: Map<Pos, TrackType>, start: Pos, color: u8)
    requires
        home(puzzle, s, start, color),
    ensures
        reaches_caboose(puzzle, s, start, color),
{
    reveal(linked);
    let j = choose|j: int| 0 <= j < puzzle.cabooses@.len() && (#[trigger] puzzle.cabooses@[j]).color == color
        && linked(puzzle, s, start, puzzle.cabooses@[j].row_col());
    assert(spec_can_reach(puzzle, s, start, puzzle.cabooses@[j].row_col()));
}

/// What the run has shown so far of every car: where it started from, its color and id; a
/// car on the way has a route from its start to where it stands, and a coupled one a route
/// on to its leader, of its color; a car home has a route from its start to a caboose of its
/// color; and a color is home all at once.
pub open spec fn cars_inv(puzzle: &Puzzle, s: Map<Pos, TrackType>, cars: Seq<CarState>) -> bool {
    let n = puzzle.cars@.len();
    &&& cars.len() == n
    &&& forall|k: int| 0 <= k < n ==> (#[trigger] cars[k]).color == puzzle.cars@[k].color && cars[k].id == puzzle.cars@[k].id
    &&& forall|k: int| 0 <= k < n && (#[trigger] cars[k].leader) is Some ==> {
        let l = cars[k].leader->0 as int;
        &&& l < n
        &&& cars[l].color == cars[k].color
        &&& !cars[k].done ==> linked(puzzle, s, cars[k].pos, cars[l].pos)
    }
    &&& forall|k: int, j: int| #![trigger cars[k], cars[j]] 0 <= k < n && 0 <= j < n && cars[k].color == cars[j].color
        ==> cars[k].done == cars[j].done
    &&& forall|k: int| 0 <= k < n && !(#[trigger] cars[k]).done ==> linked(puzzle, s, puzzle.cars@[k].row_col(), cars[k].pos)
    &&& forall|k: int| 0 <= k < n && (#[trigger] cars[k]).done ==> home(puzzle, s, puzzle.cars@[k].row_col(), cars[k].color)
}

/// How one car's state changes in the movement phase.
pub open spec fn moved(puzzle: &Puzzle, s: Map<Pos, TrackType>, prev_pos: Seq<Pos>, c: CarState, c1: CarState) -> bool {
    &&& c1.id == c.id && c1.color == c.color && c1.leader == c.leader && c1.done == c.done
    &&& c.done ==> c1.pos == c.pos
    &&& !c.done ==> match c.leader {
        Some(l) => c1.pos == prev_pos[l as int],
        None => edge(puzzle, s, c.pos, c1.pos),
    }
}

proof fn lemma_move(
    puzzle: &Puzzle,
    s: Map<Pos, TrackType>,
    prev_pos: Seq<Pos>,
    prev_dir: Seq<Direction>,
    st: SimState,
    i: int,
    st1: SimState,
)
    requires
        on_placeable(puzzle, s),
        0 <= i <= st.cars.len(),
        move_from(puzzle, s, prev_pos, prev_dir, st, i) == Ok::<SimState, SimResult>(st1),
    ensures
        st1.cars.len() == st.cars.len(),
        forall|k: int| 0 <= k < i ==> #[trigger] st1.cars[k] == st.cars[k],
        forall|k: int| i <= k < st.cars.len() ==> moved(puzzle, s, prev_pos, #[trigger] st.cars[k], st1.cars[k]),
    decreases st.cars.len() - i,
{
    if i < st.cars.len() {
        let c = st.cars[i];
        if c.done {
            lemma_move(puzzle, s, prev_pos, prev_dir, st, i + 1, st1);
        } else {
            match c.leader {
                Some(l) => {
                    let st2 = SimState {
                        cars: st.cars.update(i, CarState { pos: prev_pos[l as int], dir: prev_dir[l as int], ..c }),
                        ..st
                    };
                    lemma_move(puzzle, s, prev_pos, prev_dir, st2, i + 1, st1);
                    assert(st1.cars[i] == st2.cars[i]);
                    assert forall|k: int| 0 <= k < i implies #[trigger] st1.cars[k] == st.cars[k] by {
                        assert(st2.cars[k] == st.cars[k]);
                    }
                    assert forall|k: int| i <= k < st.cars.len() implies moved(puzzle, s, prev_pos, #[trigger] st.cars[k], st1.cars[k]) by {
                        if k > i {
                            assert(st2.cars[k] == st.cars[k]);
                        }
                    }
                },
                None => {
                    lemma_advance_edge(puzzle, s, st.sw, c.pos, c.dir);
                    match spec_advance(puzzle, s, st.sw, c.pos, c.dir) {
                        (None, _) => {},
                        (Some((np, nd)), sw2) => {
                            if !st.visited[i].contains((np, nd)) {
                                let st2 = SimState {
                                    cars: st.cars.update(i, CarState { pos: np, dir: nd, ..c }),
                                    sw: sw2,
                                    visited: st.visited.update(i, st.visited[i].insert((np, nd))),
                                };
                                lemma_move(puzzle, s, prev_pos, prev_dir, st2, i + 1, st1);
                                assert(st1.cars[i] == st2.cars[i]);
                                assert forall|k: int| 0 <= k < i implies #[trigger] st1.cars[k] == st.cars[k] by {
                                    assert(st2.cars[k] == st.cars[k]);
                                }
                                assert forall|k: int| i <= k < st.cars.len() implies moved(puzzle, s, prev_pos, #[trigger] st.cars[k], st1.cars[k]) by {
                                    if k > i {
                                        assert(st2.cars[k] == st.cars[k]);
                                    }
                                }
                            }
                        },
                    }
                },
            }
        }
    }
}

/// A car found by color and id is a car of that color that is not home.
proof fn lemma_find_car(cars: Seq<CarState>, color: u8, id: u8, k: int)
    requires
        0 <= k,
        cars.len() <= usize::MAX,
    ensures
        find_car(cars, color, id, k) matches Some(i) ==> i < cars.len() && !cars[i as int].done && cars[i as int].color == color,
    decreases cars.len() - k,
{
    if k < cars.len() {
        lemma_find_car(cars, color, id, k + 1);
    }
}

/// Car `k` either keeps its leader `l`, or is a free car not home that now follows a car
/// of its color, not home, that stood where car `k` stands.
pub open spec fn new_leader_ok(cars: Seq<CarState>, prev_pos: Seq<Pos>, k: int, l: Option<usize>) -> bool {
    ||| l == cars[k].leader
    ||| cars[k].leader is None && !cars[k].done && l is Some && l->0 < cars.len() && !cars[l->0 as int].done
        && cars[l->0 as int].color == cars[k].color && cars[k].pos == prev_pos[l->0 as int]
}

/// The coupling phase changes only leaders, and couples a free car only behind a car of
/// its color that is not home and stood, at the start of the step, where the car now stands.
proof fn lemma_couple(cars: Seq<CarState>, prev_pos: Seq<Pos>, j: int)
    requires
        0 <= j <= cars.len(),
        cars.len() <= usize::MAX,
    ensures
        ({
            let c2 = couple_from(cars, prev_pos, j);
            &&& c2.len() == cars.len()
            &&& forall|k: int| 0 <= k < cars.len() ==> (#[trigger] c2[k]).id == cars[k].id && c2[k].color == cars[k].color
                && c2[k].done == cars[k].done && c2[k].pos == cars[k].pos
            &&& forall|k: int| 0 <= k < cars.len() ==> new_leader_ok(cars, prev_pos, k, (#[trigger] c2[k]).leader)
        }),
    decreases cars.len() - j,
{
    if j < cars.len() {
        let c = cars[j];
        if c.done || c.leader is Some || front_id(c.id) == 0 {
            lemma_couple(cars, prev_pos, j + 1);
        } else {
            lemma_find_car(cars, c.color, front_id(c.id), 0);
            match find_car(cars, c.color, front_id(c.id), 0) {
                Some(i) => if c.pos == prev_pos[i as int] && c.dir == cars[i as int].dir {
                    let cars2 = cars.update(j, CarState { leader: Some(i), ..c });
                    lemma_couple(cars2, prev_pos, j + 1);
                    let c2 = couple_from(cars2, prev_pos, j + 1);
                    assert forall|k: int| 0 <= k < cars.len() implies new_leader_ok(cars, prev_pos, k, (#[trigger] c2[k]).leader) by {
                        assert(new_leader_ok(cars2, prev_pos, k, c2[k].leader));
                        if k != j {
                            assert(cars2[k] == cars[k]);
                        }
                        if let Some(i2) = c2[k].leader {
                            if i2 < cars.len() {
                                assert(cars2[i2 as int].done == cars[i2 as int].done);
                                assert(cars2[i2 as int].color == cars[i2 as int].color);
                            }
                        }
                    }
                } else {
                    lemma_couple(cars, prev_pos, j + 1);
                },
                None => {
                    lemma_couple(cars, prev_pos, j + 1);
                },
            }
        }
    }
}

// ── Counting a color's cars ─────────────────────────────────────────────────

/// The number of cars of color `color` among the first `m`.
pub open spec fn same_count(cars: Seq<CarState>, color: u8, m: int) -> nat
    decreases m,
{
    if m <= 0 {
        0
    } else {
        same_count(cars, color, m - 1) + if cars[m - 1].color == color { 1nat } else { 0nat }
    }
}

proof fn lemma_group_size(puzzle: &Puzzle, cars: Seq<CarState>, color: u8, m: int)
    requires
        0 <= m <= puzzle.cars@.len(),
        cars.len() == puzzle.cars@.len(),
        forall|k: int| 0 <= k < cars.len() ==> (#[trigger] cars[k]).color == puzzle.cars@[k].color,
    ensures
        group_size(puzzle.cars@.take(m), color) == same_count(cars, color, m),
    decreases m,
{
    if m > 0 {
        lemma_group_size(puzzle, cars, color, m - 1);
        assert(puzzle.cars@.take(m).drop_last() == puzzle.cars@.take(m - 1));
        assert(puzzle.cars@.take(m).last() == puzzle.cars@[m - 1]);
        assert(cars[m - 1].color == puzzle.cars@[m - 1].color);
    }
}

/// When a car `k0` of the leader's color is not in its chain, the chain and the two of them
/// do not outnumber the cars of that color.
proof fn lemma_chain_count(cars: Seq<CarState>, i: int, k0: int, m: int)
    requires
        0 <= i < cars.len(),
        0 <= k0 < cars.len(),
        k0 != i,
        cars[k0].color == cars[i].color,
        !in_chain(cars, i, k0),
        0 <= m <= cars.len(),
    ensures
        chain_count_upto(cars, i, m) + (if i < m { 1nat } else { 0nat }) + (if k0 < m { 1nat } else { 0nat })
            <= same_count(cars, cars[i].color, m),
    decreases m,
{
    if m > 0 {
        lemma_chain_count(cars, i, k0, m - 1);
    }
}

/// Every coupled car that is not home follows a car of its color, not home, that it can reach.
pub open spec fn leaders_ok(puzzle: &Puzzle, s: Map<Pos, TrackType>, cars: Seq<CarState>) -> bool {
    forall|k: int| 0 <= k < cars.len() && !cars[k].done && (#[trigger] cars[k].leader) is Some ==> {
        let l = cars[k].leader->0 as int;
        &&& 0 <= l < cars.len()
        &&& !cars[l].done
        &&& cars[l].color == cars[k].color
        &&& linked(puzzle, s, cars[k].pos, cars[l].pos)
    }
}

proof fn lemma_leaders_ok(puzzle: &Puzzle, s: Map<Pos, TrackType>, cars: Seq<CarState>)
    requires
        cars_inv(puzzle, s, cars),
    ensures
        leaders_ok(puzzle, s, cars),
{
    assert forall|k: int| 0 <= k < cars.len() && !cars[k].done && (#[trigger] cars[k].leader) is Some implies {
        let l = cars[k].leader->0 as int;
        &&& 0 <= l < cars.len()
        &&& !cars[l].done
        &&& cars[l].color == cars[k].color
        &&& linked(puzzle, s, cars[k].pos, cars[l].pos)
    } by {
        let l = cars[k].leader->0 as int;
        assert(cars[l].color == cars[k].color);
        assert(cars[l].done == cars[k].done);
    }
}

/// Following leaders from a car that is not home leads along routes.
proof fn lemma_chain_route(puzzle: &Puzzle, s: Map<Pos, TrackType>, cars: Seq<CarState>, cur: int, target: int, steps: nat)
    requires
        leaders_ok(puzzle, s, cars),
        0 <= cur < cars.len(),
        0 <= target < cars.len(),
        !cars[cur].done,
        chain_reaches(cars, cur, target, steps),
    ensures
        linked(puzzle, s, cars[cur].pos, cars[target].pos),
    decreases cars.len() + 1 - steps,
{
    if cur == target {
        lemma_linked_self(puzzle, s, cars[cur].pos);
    } else {
        let next = cars[cur].leader->0;
        assert(!cars[next as int].done);
        lemma_chain_route(puzzle, s, cars, next as int, target, steps + 1);
        lemma_linked_trans(puzzle, s, cars[cur].pos, cars[next as int].pos, cars[target].pos);
    }
}

/// The caboose found for a color and a position is one of the puzzle's, of that color, there.
proof fn lemma_find_caboose(cabs: Seq<Caboose>, color: u8, pos: Pos, k: int)
    requires
        0 <= k,
    ensures
        find_caboose(cabs, color, pos, k) matches Some(cab) ==> exists|j: int| 0 <= j < cabs.len() && cabs[j] == cab
            && cab.color == color && cab.row_col() == pos,
    decreases cabs.len() - k,
{
    if k < cabs.len() {
        lemma_find_caboose(cabs, color, pos, k + 1);
        if find_caboose(cabs, color, pos, k) == Some(cabs[k]) {
            assert(cabs[k].row_col() == pos);
        }
    }
}

/// The caboose phase keeps what the run has shown: a color goes home only when its front car
/// stands on a caboose of its color with every car of the color in its chain.
#[verifier::rlimit(40)]
proof fn lemma_caboose(puzzle: &Puzzle, s: Map<Pos, TrackType>, cars: Seq<CarState>, i: int)
    requires
        0 <= i <= cars.len(),
        cars_inv(puzzle, s, cars),
        caboose_from(puzzle, cars, i) is Ok,
    ensures
        caboose_from(puzzle, cars, i) matches Ok(c3) && cars_inv(puzzle, s, c3),
    decreases cars.len() - i,
{
    if i < cars.len() {
        let c = cars[i];
        if !c.done {
            lemma_find_caboose(puzzle.cabooses@, c.color, c.pos, 0);
            if let Some(cab) = find_caboose(puzzle.cabooses@, c.color, c.pos, 0) {
                let n = cars.len() as int;
                let color = c.color;
                lemma_group_size(puzzle, cars, color, n);
                lemma_leaders_ok(puzzle, s, cars);
                assert(puzzle.cars@.take(n) == puzzle.cars@);
                let cm = mark_done(cars, color);
                let jc = choose|jc: int| 0 <= jc < puzzle.cabooses@.len() && puzzle.cabooses@[jc] == cab && cab.color == color
                    && cab.row_col() == c.pos;
                assert forall|k: int| 0 <= k < n && #[trigger] cars[k].color == color implies home(
                    puzzle,
                    s,
                    puzzle.cars@[k].row_col(),
                    color,
                ) by {
                    assert(!cars[k].done);
                    if k != i {
                        if !in_chain(cars, i, k) {
                            lemma_chain_count(cars, i, k, n);
                        }
                        lemma_chain_route(puzzle, s, cars, k, i, 0);
                        lemma_linked_trans(puzzle, s, puzzle.cars@[k].row_col(), cars[k].pos, c.pos);
                    }
                    assert(puzzle.cabooses@[jc].color == color);
                    assert(linked(puzzle, s, puzzle.cars@[k].row_col(), puzzle.cabooses@[jc].row_col()));
                }
                assert(cars_inv(puzzle, s, cm)) by {
                    assert forall|k: int| 0 <= k < n && (#[trigger] cm[k]).done implies home(
                        puzzle,
                        s,
                        puzzle.cars@[k].row_col(),
                        cm[k].color,
                    ) by {
                        if cars[k].color != color {
                            assert(cm[k] == cars[k]);
                        }
                    }
                    assert forall|k: int, j: int| #![trigger cm[k], cm[j]] 0 <= k < n && 0 <= j < n && cm[k].color == cm[j].color
                        implies cm[k].done == cm[j].done by {
                        assert(cars[k].color == cm[k].color && cars[j].color == cm[j].color);
                    }
                    assert forall|k: int| 0 <= k < n && (#[trigger] cm[k].leader) is Some implies {
                        let l = cm[k].leader->0 as int;
                        &&& l < n
                        &&& cm[l].color == cm[k].color
                        &&& !cm[k].done ==> linked(puzzle, s, cm[k].pos, cm[l].pos)
                    } by {
                        assert(cars[k].leader == cm[k].leader);
                        let l = cars[k].leader->0 as int;
                        assert(cars[l].color == cars[k].color);
                        if !cm[k].done {
                            assert(cm[k] == cars[k]);
                            assert(cm[l] == cars[l]);
                        }
                    }
                }
                if c.id == 1 && c.dir == cab.entry_side.spec_opposite() && !(spec_count_chain(cars, i) < group_size(puzzle.cars@, color)) {
                    lemma_caboose(puzzle, s, cm, i + 1);
                }
            } else {
                lemma_caboose(puzzle, s, cars, i + 1);
            }
        } else {
            lemma_caboose(puzzle, s, cars, i + 1);
        }
    }
}


// ── Arriving at a caboose ───────────────────────────────────────────────────

/// `c` is a front car standing on a caboose of its color, travelling against that
/// caboose's entry side (a caboose entered from the west is reached travelling east).
pub open spec fn arrives_through_entry(puzzle: &Puzzle, c: CarState) -> bool {
    &&& c.id == 1
    &&& exists|j: int| 0 <= j < puzzle.cabooses@.len() && (#[trigger] puzzle.cabooses@[j]).color == c.color
        && puzzle.cabooses@[j].row_col() == c.pos && c.dir == puzzle.cabooses@[j].entry_side.spec_opposite()
}

proof fn lemma_home_through_entry(puzzle: &Puzzle, cars: Seq<CarState>, i: int)
    requires
        0 <= i,
        caboose_from(puzzle, cars, i) is Ok,
    ensures
        forall|k: int| 0 <= k < cars.len() && !cars[k].done && (#[trigger] caboose_from(puzzle, cars, i)->Ok_0[k]).done
            ==> exists|m: int| 0 <= m < cars.len() && cars[m].color == cars[k].color && #[trigger] arrives_through_entry(
            puzzle,
            cars[m],
        ),
        caboose_from(puzzle, cars, i)->Ok_0.len() == cars.len(),
    decreases cars.len() - i,
{
    if i < cars.len() {
        let c = cars[i];
        if c.done {
            lemma_home_through_entry(puzzle, cars, i + 1);
        } else {
            lemma_find_caboose(puzzle.cabooses@, c.color, c.pos, 0);
            match find_caboose(puzzle.cabooses@, c.color, c.pos, 0) {
                None => lemma_home_through_entry(puzzle, cars, i + 1),
                Some(cab) => {
                    let cm = mark_done(cars, c.color);
                    lemma_home_through_entry(puzzle, cm, i + 1);
                    let c3 = caboose_from(puzzle, cars, i)->Ok_0;
                    let jc = choose|jc: int| 0 <= jc < puzzle.cabooses@.len() && puzzle.cabooses@[jc] == cab && cab.color == c.color
                        && cab.row_col() == c.pos;
                    assert(puzzle.cabooses@[jc].color == c.color);
                    assert(arrives_through_entry(puzzle, cars[i]));
                    assert forall|k: int| 0 <= k < cars.len() && !cars[k].done && (#[trigger] c3[k]).done implies exists|m: int|
                        0 <= m < cars.len() && cars[m].color == cars[k].color && #[trigger] arrives_through_entry(puzzle, cars[m]) by {
                        if cars[k].color == c.color {
                            assert(cars[i].color == cars[k].color);
                        } else {
                            assert(cm[k] == cars[k]);
                            let m = choose|m: int| 0 <= m < cm.len() && cm[m].color == cm[k].color && #[trigger] arrives_through_entry(
                                puzzle,
                                cm[m],
                            );
                            assert(cm[m].id == cars[m].id && cm[m].color == cars[m].color && cm[m].pos == cars[m].pos
                                && cm[m].dir == cars[m].dir);
                            assert(arrives_through_entry(puzzle, cars[m]));
                        }
                    }
                },
            }
        }
    }
}

/// A group goes home only through the entry side: when the caboose phase of a step ends
/// without a crash or a wrong order, every car it marks home belongs to a color whose
/// front car stands on a caboose of that color, travelling against its entry side.
pub proof fn law_home_only_through_entry(puzzle: &Puzzle, cars: Seq<CarState>, after: Seq<CarState>)
    requires
        caboose_from(puzzle, cars, 0) == Ok::<Seq<CarState>, SimResult>(after),
    ensures
        after.len() == cars.len(),
        forall|k: int| 0 <= k < cars.len() && !cars[k].done && (#[trigger] after[k]).done ==> exists|m: int|
            0 <= m < cars.len() && cars[m].color == cars[k].color && #[trigger] arrives_through_entry(puzzle, cars[m]),
{
    lemma_home_through_entry(puzzle, cars, 0);
}

/// `c` stands on some caboose of its color.
pub open spec fn on_own_caboose(puzzle: &Puzzle, c: CarState) -> bool {
    exists|j: int| 0 <= j < puzzle.cabooses@.len() && (#[trigger] puzzle.cabooses@[j]).color == c.color
        && puzzle.cabooses@[j].row_col() == c.pos
}

proof fn lemma_find_caboose_none(cabs: Seq<Caboose>, color: u8, pos: Pos, k: int)
    requires
        0 <= k,
    ensures
        find_caboose(cabs, color, pos, k) is None <==> !exists|j: int| k <= j < cabs.len() && (#[trigger] cabs[j]).color == color
            && cabs[j].row_col() == pos,
    decreases cabs.len() - k,
{
    if k < cabs.len() {
        lemma_find_caboose_none(cabs, color, pos, k + 1);
        if cabs[k].color == color && cabs[k].row_col() == pos {
            assert(cabs[k].row == pos.0 && cabs[k].col == pos.1);
        }
    }
}

proof fn lemma_skip_to(puzzle: &Puzzle, cars: Seq<CarState>, j: int, i: int)
    requires
        0 <= j <= i < cars.len(),
        forall|m: int| 0 <= m < i ==> (#[trigger] cars[m]).done || !on_own_caboose(puzzle, cars[m]),
    ensures
        caboose_from(puzzle, cars, j) == caboose_from(puzzle, cars, i),
    decreases i - j,
{
    if j < i {
        let c = cars[j];
        if !c.done {
            lemma_find_caboose_none(puzzle.cabooses@, c.color, c.pos, 0);
            assert(!on_own_caboose(puzzle, cars[j]));
        }
        lemma_skip_to(puzzle, cars, j + 1, i);
    }
}

/// A front car that reaches a caboose of its color travelling any way but against the
/// caboose's entry side crashes there: when it is the first car in the list not home that
/// stands on a caboose of its color, the caboose phase ends with a crash of that car.
pub proof fn law_wrong_side_crashes(puzzle: &Puzzle, cars: Seq<CarState>, i: int)
    requires
        0 <= i < cars.len(),
        forall|m: int| 0 <= m < i ==> (#[trigger] cars[m]).done || !on_own_caboose(puzzle, cars[m]),
        !cars[i].done,
        cars[i].id == 1,
        on_own_caboose(puzzle, cars[i]),
        forall|j: int| 0 <= j < puzzle.cabooses@.len() && (#[trigger] puzzle.cabooses@[j]).color == cars[i].color
            && puzzle.cabooses@[j].row_col() == cars[i].pos ==> cars[i].dir != puzzle.cabooses@[j].entry_side.spec_opposite(),
    ensures
        caboose_from(puzzle, cars, 0) == Err::<Seq<CarState>, SimResult>(
            SimResult::Crash { car_color: cars[i].color, car_id: cars[i].id },
        ),
{
    lemma_skip_to(puzzle, cars, 0, i);
    let c = cars[i];
    lemma_find_caboose_none(puzzle.cabooses@, c.color, c.pos, 0);
    lemma_find_caboose(puzzle.cabooses@, c.color, c.pos, 0);
    let cab = find_caboose(puzzle.cabooses@, c.color, c.pos, 0)->0;
    let jc = choose|jc: int| 0 <= jc < puzzle.cabooses@.len() && puzzle.cabooses@[jc] == cab && cab.color == c.color
        && cab.row_col() == c.pos;
    assert(puzzle.cabooses@[jc].color == c.color);
}

// ── A winning run passes the connectivity check ─────────────────────────────

/// In one movement phase every car that is not home moves along a route.
proof fn lemma_moved_links(puzzle: &Puzzle, s: Map<Pos, TrackType>, cars: Seq<CarState>, cars1: Seq<CarState>)
    requires
        cars_inv(puzzle, s, cars),
        cars1.len() == cars.len(),
        forall|k: int| 0 <= k < cars.len() ==> moved(puzzle, s, car_positions(cars), #[trigger] cars[k], cars1[k]),
    ensures
        forall|j: int| 0 <= j < cars.len() && !(#[trigger] cars[j]).done ==> linked(puzzle, s, cars[j].pos, cars1[j].pos),
{
    assert forall|j: int| 0 <= j < cars.len() && !(#[trigger] cars[j]).done implies linked(puzzle, s, cars[j].pos, cars1[j].pos) by {
        assert(moved(puzzle, s, car_positions(cars), cars[j], cars1[j]));
        match cars[j].leader {
            Some(l) => {
                assert(cars[j].leader is Some);
                assert(car_positions(cars)[l as int] == cars[l as int].pos);
            },
            None => {
                lemma_linked_self(puzzle, s, cars[j].pos);
                lemma_linked_step(puzzle, s, cars[j].pos, cars[j].pos, cars1[j].pos);
            },
        }
    }
}

/// A step that does not end the run keeps what the run has shown.
#[verifier::rlimit(40)]
proof fn lemma_step(puzzle: &Puzzle, s: Map<Pos, TrackType>, st: SimState, st2: SimState)
    requires
        on_placeable(puzzle, s),
        puzzle.cars@.len() <= usize::MAX,
        cars_inv(puzzle, s, st.cars),
        sim_step(puzzle, s, st) == Ok::<SimState, SimResult>(st2),
    ensures
        cars_inv(puzzle, s, st2.cars),
{
    let prev = car_positions(st.cars);
    let prevd = car_dirs(st.cars);
    let n = st.cars.len() as int;
    let st1 = move_from(puzzle, s, prev, prevd, st, 0)->Ok_0;
    lemma_move(puzzle, s, prev, prevd, st, 0, st1);
    lemma_moved_links(puzzle, s, st.cars, st1.cars);
    let cars2 = couple_from(st1.cars, prev, 0);
    lemma_couple(st1.cars, prev, 0);
    assert forall|k: int| 0 <= k < n implies (#[trigger] st1.cars[k]).done == st.cars[k].done && st1.cars[k].color == st.cars[k].color
        && st1.cars[k].leader == st.cars[k].leader by {
        assert(moved(puzzle, s, prev, st.cars[k], st1.cars[k]));
    }
    assert(cars_inv(puzzle, s, cars2)) by {
        assert forall|k: int| 0 <= k < n implies (#[trigger] cars2[k]).color == puzzle.cars@[k].color && cars2[k].id
            == puzzle.cars@[k].id by {
            assert(moved(puzzle, s, prev, st.cars[k], st1.cars[k]));
        }
        assert forall|k: int, j: int| #![trigger cars2[k], cars2[j]] 0 <= k < n && 0 <= j < n && cars2[k].color == cars2[j].color
            implies cars2[k].done == cars2[j].done by {
            assert(st1.cars[k].done == st.cars[k].done && st1.cars[j].done == st.cars[j].done);
        }
        assert forall|k: int| 0 <= k < n && !(#[trigger] cars2[k]).done implies linked(
            puzzle,
            s,
            puzzle.cars@[k].row_col(),
            cars2[k].pos,
        ) by {
            assert(st1.cars[k].done == st.cars[k].done);
            lemma_linked_trans(puzzle, s, puzzle.cars@[k].row_col(), st.cars[k].pos, st1.cars[k].pos);
        }
        assert forall|k: int| 0 <= k < n && (#[trigger] cars2[k]).done implies home(
            puzzle,
            s,
            puzzle.cars@[k].row_col(),
            cars2[k].color,
        ) by {
            assert(st1.cars[k].done == st.cars[k].done);
            assert(moved(puzzle, s, prev, st.cars[k], st1.cars[k]));
        }
        assert forall|k: int| 0 <= k < n && (#[trigger] cars2[k].leader) is Some implies {
            let l = cars2[k].leader->0 as int;
            &&& l < n
            &&& cars2[l].color == cars2[k].color
            &&& !cars2[k].done ==> linked(puzzle, s, cars2[k].pos, cars2[l].pos)
        } by {
            assert(new_leader_ok(st1.cars, prev, k, cars2[k].leader));
            let l = cars2[k].leader->0 as int;
            assert(st1.cars[k].done == st.cars[k].done);
            if cars2[k].leader == st1.cars[k].leader {
                assert(st.cars[k].leader is Some);
                assert(st.cars[l].color == st.cars[k].color);
                assert(st1.cars[l].done == st.cars[l].done);
                if !cars2[k].done {
                    assert(st.cars[l].done == st.cars[k].done);
                    assert(moved(puzzle, s, prev, st.cars[k], st1.cars[k]));
                    assert(prev[l] == st.cars[l].pos);
                }
            } else {
                assert(st1.cars[l].done == st.cars[l].done);
                assert(prev[l] == st.cars[l].pos);
            }
        }
    }
    lemma_caboose(puzzle, s, cars2, 0);
}

/// The movement phase never ends a run with a win.
proof fn lemma_move_not_win(
    puzzle: &Puzzle,
    s: Map<Pos, TrackType>,
    prev: Seq<Pos>,
    prevd: Seq<Direction>,
    st: SimState,
    i: int,
)
    ensures
        move_from(puzzle, s, prev, prevd, st, i) != Err::<SimState, SimResult>(SimResult::Win),
    decreases st.cars.len() - i,
{
    if 0 <= i < st.cars.len() {
        let c = st.cars[i];
        if c.done {
            lemma_move_not_win(puzzle, s, prev, prevd, st, i + 1);
        } else {
            match c.leader {
                Some(l) => {
                    let st2 = SimState {
                        cars: st.cars.update(i, CarState { pos: prev[l as int], dir: prevd[l as int], ..c }),
                        ..st
                    };
                    lemma_move_not_win(puzzle, s, prev, prevd, st2, i + 1);
                },
                None => match spec_advance(puzzle, s, st.sw, c.pos, c.dir) {
                    (None, _) => {},
                    (Some((np, nd)), sw2) => if !st.visited[i].contains((np, nd)) {
                        let st2 = SimState {
                            cars: st.cars.update(i, CarState { pos: np, dir: nd, ..c }),
                            sw: sw2,
                            visited: st.visited.update(i, st.visited[i].insert((np, nd))),
                        };
                        lemma_move_not_win(puzzle, s, prev, prevd, st2, i + 1);
                    },
                },
            }
        }
    }
}

/// The caboose phase never ends a run with a win.
proof fn lemma_caboose_not_win(puzzle: &Puzzle, cars: Seq<CarState>, i: int)
    ensures
        caboose_from(puzzle, cars, i) != Err::<Seq<CarState>, SimResult>(SimResult::Win),
    decreases cars.len() - i,
{
    if 0 <= i < cars.len() {
        let c = cars[i];
        if c.done {
            lemma_caboose_not_win(puzzle, cars, i + 1);
        } else {
            match find_caboose(puzzle.cabooses@, c.color, c.pos, 0) {
                None => lemma_caboose_not_win(puzzle, cars, i + 1),
                Some(cab) => {
                    lemma_caboose_not_win(puzzle, mark_done(cars, c.color), i + 1);
                },
            }
        }
    }
}

/// A run that ends in a win has brought every car home.
proof fn lemma_run(puzzle: &Puzzle, s: Map<Pos, TrackType>, st: SimState, steps: nat)
    requires
        on_placeable(puzzle, s),
        puzzle.cars@.len() <= usize::MAX,
        cars_inv(puzzle, s, st.cars),
        sim_run(puzzle, s, st, steps) == SimResult::Win,
    ensures
        forall|k: int| 0 <= k < puzzle.cars@.len() ==> home(puzzle, s, (#[trigger] puzzle.cars@[k]).row_col(), puzzle.cars@[k].color),
    decreases steps,
{
    if steps > 0 {
        match sim_step(puzzle, s, st) {
            Err(r) => {
                if !all_done(st.cars) {
                    let prev = car_positions(st.cars);
                    let prevd = car_dirs(st.cars);
                    lemma_move_not_win(puzzle, s, prev, prevd, st, 0);
                    if let Ok(st1) = move_from(puzzle, s, prev, prevd, st, 0) {
                        lemma_caboose_not_win(puzzle, couple_from(st1.cars, prev, 0), 0);
                    }
                }
                assert forall|k: int| 0 <= k < puzzle.cars@.len() implies home(
                    puzzle,
                    s,
                    (#[trigger] puzzle.cars@[k]).row_col(),
                    puzzle.cars@[k].color,
                ) by {
                    assert(st.cars[k].done);
                }
            },
            Ok(st2) => {
                lemma_step(puzzle, s, st, st2);
                lemma_run(puzzle, s, st2, (steps - 1) as nat);
            },
        }
    }
}

/// At the start every car stands where it starts, uncoupled and on its way.
proof fn lemma_initial(puzzle: &Puzzle, s: Map<Pos, TrackType>)
    ensures
        cars_inv(puzzle, s, initial_state(puzzle).cars),
{
    let cars = initial_state(puzzle).cars;
    assert forall|k: int| 0 <= k < puzzle.cars@.len() && !(#[trigger] cars[k]).done implies linked(
        puzzle,
        s,
        puzzle.cars@[k].row_col(),
        cars[k].pos,
    ) by {
        lemma_linked_self(puzzle, s, puzzle.cars@[k].row_col());
    }
}

/// Connectivity pruning is sound: when a completion `s` of a placement `pl` (pieces only on
/// placeable cells) wins, `pl` passes the connectivity check, so the search never prunes a
/// placement that a winning solution extends.
pub proof fn law_connectivity_sound(puzzle: &Puzzle, pl: Map<Pos, TrackType>, s: Map<Pos, TrackType>)
    requires
        completes(puzzle, pl, s),
        on_placeable(puzzle, s),
        spec_simulate(puzzle, s) == SimResult::Win,
    ensures
        spec_connectivity_ok(puzzle, pl),
{
    assert(puzzle.cars@.len() == puzzle.cars.len());
    lemma_initial(puzzle, s);
    lemma_run(puzzle, s, initial_state(puzzle), MAX_STEPS as nat);
    assert forall|k: int| 0 <= k < puzzle.cars@.len() && has_caboose(puzzle, (#[trigger] puzzle.cars@[k]).color) implies reaches_caboose(
        puzzle,
        pl,
        puzzle.cars@[k].row_col(),
        puzzle.cars@[k].color,
    ) by {
        let start = puzzle.cars@[k].row_col();
        let color = puzzle.cars@[k].color;
        lemma_home(puzzle, s, start, color);
        let j = choose|j: int| 0 <= j < puzzle.cabooses@.len() && (#[trigger] puzzle.cabooses@[j]).color == color
            && spec_can_reach(puzzle, s, start, puzzle.cabooses@[j].row_col());
        law_reach_fewer_pieces(puzzle, s, pl, start, puzzle.cabooses@[j].row_col());
    }
}

} // verus!
