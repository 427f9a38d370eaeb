use vstd::prelude::*;
use crate::posmap::{pos_eq, Pos, PosMap};
use crate::puzzle::{CellKind, Puzzle, Tunnel, tunnel_exit_from};
use crate::simulation::{coord_ok, coords_fit, lemma_tunnel_exit_ok, neighbor, step_target};
use crate::solver::{connects, track_connects_from};
use crate::types::{Direction, TrackType};

verus! {

// ── Finitely many positions ─────────────────────────────────────────────────

/// The cells of row `r` among its first `c` columns.
pub open spec fn row_positions(r: nat, c: nat) -> Seq<Pos> {
    Seq::new(c, |j: int| (r as usize, j as usize))
}

/// All cells of a `rows` x `cols` grid.
pub open spec fn grid_positions(rows: nat, cols: nat) -> Seq<Pos>
    decreases rows,
{
    if rows == 0 {
        Seq::empty()
    } else {
        grid_positions((rows - 1) as nat, cols) + row_positions((rows - 1) as nat, cols)
    }
}

pub proof fn lemma_row_positions_contains(r: nat, c: nat, p: Pos)
    requires
        p.0 == r,
        p.1 < c,
    ensures
        row_positions(r, c).contains(p),
{
    assert(row_positions(r, c)[p.1 as int] == p);
}

pub proof fn lemma_grid_positions_contains(rows: nat, cols: nat, p: Pos)
    requires
        p.0 < rows,
        p.1 < cols,
    ensures
        grid_positions(rows, cols).contains(p),
    decreases rows,
{
    let g = grid_positions(rows, cols);
    let prev = grid_positions((rows - 1) as nat, cols);
    let row = row_positions((rows - 1) as nat, cols);
    if p.0 == rows - 1 {
        lemma_row_positions_contains((rows - 1) as nat, cols, p);
        let i = choose|i: int| 0 <= i < row.len() && row[i] == p;
        assert(g[prev.len() + i] == p);
    } else {
        lemma_grid_positions_contains((rows - 1) as nat, cols, p);
        let i = choose|i: int| 0 <= i < prev.len() && prev[i] == p;
        assert(g[i] == p);
    }
}

/// Both ends of every tunnel.
pub open spec fn tunnel_ends(ts: Seq<Tunnel>) -> Seq<Pos> {
    Seq::new(2 * ts.len(), |k: int| if k % 2 == 0 { ts[k / 2].entry_pos } else { ts[k / 2].exit_pos })
}

pub proof fn lemma_tunnel_exit_in_ends(ts: Seq<Tunnel>, i: int, pos: Pos, facing: Direction)
    requires
        0 <= i,
    ensures
        tunnel_exit_from(ts, i, pos, facing) matches Some((p, _)) ==> tunnel_ends(ts).contains(p),
    decreases ts.len() - i,
{
    if i < ts.len() {
        let t = ts[i];
        let e = tunnel_ends(ts);
        assert(e[2 * i] == t.entry_pos);
        assert(e[2 * i + 1] == t.exit_pos);
        lemma_tunnel_exit_in_ends(ts, i + 1, pos, facing);
    }
}

/// A list without repeats, all of whose elements occur in `u`, is no longer than `u`.
pub proof fn lemma_nodup_subset_len(a: Seq<Pos>, u: Seq<Pos>)
    requires
        a.no_duplicates(),
        forall|i: int| 0 <= i < a.len() ==> u.contains(#[trigger] a[i]),
    ensures
        a.len() <= u.len(),
{
    a.unique_seq_to_set();
    u.lemma_cardinality_of_set();
    assert(a.to_set().subset_of(u.to_set())) by {
        assert forall|x: Pos| a.to_set().contains(x) implies u.to_set().contains(x) by {
            let i = choose|i: int| 0 <= i < a.len() && a[i] == x;
        }
    }
    vstd::set_lib::lemma_len_subset(a.to_set(), u.to_set());
}

// ── Reachability ────────────────────────────────────────────────────────────

/// Whether a car moving in `dir` may pass into `np` in the reachability search: unplaced
/// cells are wildcards, placed and fixed tracks must open toward the car, and tunnels and
/// terminal cells (the cells of cars and cabooses, which the trains run through) always pass.
pub open spec fn passable(puzzle: &Puzzle, pl: Map<Pos, TrackType>, np: Pos, dir: Direction) -> bool {
    match puzzle.cell(np) {
        CellKind::Wall => false,
        CellKind::Placeable => !pl.contains_key(np) || connects(pl[np], dir.spec_opposite()),
        CellKind::Fixed(t) => connects(t, dir.spec_opposite()),
        CellKind::Tunnel(_) => true,
        CellKind::Terminal => true,
    }
}

/// The tunnel at `np`, entered facing `e`, lets out at `b`.
pub open spec fn tunnel_lands(puzzle: &Puzzle, np: Pos, e: Direction, b: Pos) -> bool {
    puzzle.spec_tunnel_exit(np, e) matches Some((x, _)) && x == b
}

/// One move from `a` in direction `d`: into the neighbour `b` when it is passable, or, when
/// that neighbour is a tunnel, out at `b` at one of its far ends.
pub open spec fn edge_via(puzzle: &Puzzle, pl: Map<Pos, TrackType>, a: Pos, b: Pos, d: Direction) -> bool {
    match neighbor(puzzle, a, d) {
        None => false,
        Some(np) => passable(puzzle, pl, np, d) && (b == np || (puzzle.cell(np) is Tunnel
            && exists|e: Direction| #[trigger] tunnel_lands(puzzle, np, e, b))),
    }
}

/// `b` is one move from `a`.
pub open spec fn edge(puzzle: &Puzzle, pl: Map<Pos, TrackType>, a: Pos, b: Pos) -> bool {
    exists|d: Direction| #[trigger] edge_via(puzzle, pl, a, b, d)
}

/// A route: a sequence of cells, each one move from the one before.
pub open spec fn is_route(puzzle: &Puzzle, pl: Map<Pos, TrackType>, w: Seq<Pos>) -> bool {
    &&& w.len() >= 1
    &&& forall|i: int| 0 <= i < w.len() - 1 ==> edge(puzzle, pl, #[trigger] w[i], w[i + 1])
}

/// Whether some route leads from `start` to `goal`.
pub open spec fn spec_can_reach(puzzle: &Puzzle, pl: Map<Pos, TrackType>, start: Pos, goal: Pos) -> bool {
    exists|w: Seq<Pos>| #[trigger] is_route(puzzle, pl, w) && w[0] == start && w.last() == goal
}

/// Every cell reaches itself.
pub proof fn law_reach_self(puzzle: &Puzzle, pl: Map<Pos, TrackType>, p: Pos)
    ensures
        spec_can_reach(puzzle, pl, p, p),
{
    let w = seq![p];
    assert(is_route(puzzle, pl, w));
}

/// A route to `a` and one move on is a route to `b`.
pub proof fn lemma_reach_step(puzzle: &Puzzle, pl: Map<Pos, TrackType>, start: Pos, a: Pos, b: Pos)
    requires
        spec_can_reach(puzzle, pl, start, a),
        edge(puzzle, pl, a, b),
    ensures
        spec_can_reach(puzzle, pl, start, b),
{
    let w = choose|w: Seq<Pos>| #[trigger] is_route(puzzle, pl, w) && w[0] == start && w.last() == a;
    let w2 = w.push(b);
    assert forall|i: int| 0 <= i < w2.len() - 1 implies edge(puzzle, pl, #[trigger] w2[i], w2[i + 1]) by {
        if i < w.len() - 1 {
            assert(w2[i] == w[i] && w2[i + 1] == w[i + 1]);
        } else {
            assert(w2[i] == a && w2[i + 1] == b);
        }
    }
    assert(is_route(puzzle, pl, w2));
}

/// Routes join: a route from `a` to `b` and one from `b` to `c` make one from `a` to `c`.
pub proof fn lemma_reach_trans(puzzle: &Puzzle, pl: Map<Pos, TrackType>, a: Pos, b: Pos, c: Pos)
    requires
        spec_can_reach(puzzle, pl, a, b),
        spec_can_reach(puzzle, pl, b, c),
    ensures
        spec_can_reach(puzzle, pl, a, c),
{
    let w1 = choose|w: Seq<Pos>| #[trigger] is_route(puzzle, pl, w) && w[0] == a && w.last() == b;
    let w2 = choose|w: Seq<Pos>| #[trigger] is_route(puzzle, pl, w) && w[0] == b && w.last() == c;
    let w = w1 + w2.skip(1);
    assert forall|i: int| 0 <= i < w.len() - 1 implies edge(puzzle, pl, #[trigger] w[i], w[i + 1]) by {
        if i < w1.len() - 1 {
            assert(w[i] == w1[i] && w[i + 1] == w1[i + 1]);
        } else {
            let j = i - (w1.len() - 1);
            assert(w[i] == w2[j]) by {
                if i == w1.len() - 1 {
                    assert(w[i] == w1.last());
                } else {
                    assert(w[i] == w2.skip(1)[i - w1.len()]);
                }
            }
            assert(w[i + 1] == w2[j + 1]) by {
                assert(w[i + 1] == w2.skip(1)[i + 1 - w1.len()]);
            }
        }
    }
    assert(is_route(puzzle, pl, w));
    if w2.len() > 1 {
        assert(w.last() == w2.skip(1).last());
    }
}

/// Everything on a route that starts in a set closed under moves lies in the set.
proof fn lemma_closed_route(puzzle: &Puzzle, pl: Map<Pos, TrackType>, seen: Seq<Pos>, w: Seq<Pos>, k: int)
    requires
        is_route(puzzle, pl, w),
        seen.contains(w[0]),
        0 <= k < w.len(),
        forall|x: Pos, b: Pos| seen.contains(x) && #[trigger] edge(puzzle, pl, x, b) ==> seen.contains(b),
    ensures
        seen.contains(w[k]),
    decreases k,
{
    if k > 0 {
        lemma_closed_route(puzzle, pl, seen, w, k - 1);
        assert(edge(puzzle, pl, w[k - 1], w[k]));
    }
}

/// A placement with fewer pieces is at least as passable: `pl2` holds only pieces of `pl`.
pub proof fn lemma_fewer_pieces_edge(puzzle: &Puzzle, pl: Map<Pos, TrackType>, pl2: Map<Pos, TrackType>, a: Pos, b: Pos)
    requires
        forall|p: Pos| #[trigger] pl2.contains_key(p) ==> pl.contains_key(p) && pl2[p] == pl[p],
        edge(puzzle, pl, a, b),
    ensures
        edge(puzzle, pl2, a, b),
{
    let d = choose|d: Direction| #[trigger] edge_via(puzzle, pl, a, b, d);
    if let Some(np) = neighbor(puzzle, a, d) {
        if pl2.contains_key(np) {
            assert(pl.contains_key(np));
        }
    }
    assert(edge_via(puzzle, pl2, a, b, d));
}

/// Removing pieces never cuts a route: an empty cell passes a car at least as well as a
/// placed piece does.
pub proof fn law_reach_fewer_pieces(puzzle: &Puzzle, pl: Map<Pos, TrackType>, pl2: Map<Pos, TrackType>, start: Pos, goal: Pos)
    requires
        forall|p: Pos| #[trigger] pl2.contains_key(p) ==> pl.contains_key(p) && pl2[p] == pl[p],
        spec_can_reach(puzzle, pl, start, goal),
    ensures
        spec_can_reach(puzzle, pl2, start, goal),
{
    let w = choose|w: Seq<Pos>| #[trigger] is_route(puzzle, pl, w) && w[0] == start && w.last() == goal;
    assert forall|i: int| 0 <= i < w.len() - 1 implies edge(puzzle, pl2, #[trigger] w[i], w[i + 1]) by {
        lemma_fewer_pieces_edge(puzzle, pl, pl2, w[i], w[i + 1]);
    }
    assert(is_route(puzzle, pl2, w));
}

/// A move from `a` toward `d` that a car can make: into the grid neighbour `np`, which is
/// no wall; a fixed piece there, or a piece placed on it, has an open side facing the car;
/// and the car stays at `np` or, when `np` is a tunnel, comes out elsewhere.
pub open spec fn open_move(puzzle: &Puzzle, pl: Map<Pos, TrackType>, a: Pos, b: Pos, d: Direction) -> bool {
    match neighbor(puzzle, a, d) {
        None => false,
        Some(np) => {
            &&& match puzzle.cell(np) {
                CellKind::Wall => false,
                CellKind::Fixed(t) => t.spec_open_sides().contains(d.spec_opposite()),
                CellKind::Placeable => pl.contains_key(np) ==> pl[np].spec_open_sides().contains(d.spec_opposite()),
                _ => true,
            }
            &&& (b == np || puzzle.cell(np) is Tunnel)
        },
    }
}

/// Every move of a route enters its cell through an open side: never a wall, and never a
/// fixed or placed piece from a side where it has no opening.
pub proof fn law_moves_enter_open_sides(puzzle: &Puzzle, pl: Map<Pos, TrackType>, a: Pos, b: Pos, d: Direction)
    requires
        edge_via(puzzle, pl, a, b, d),
    ensures
        open_move(puzzle, pl, a, b, d),
{
}

/// `b` is one open move from `a`.
pub open spec fn open_step(puzzle: &Puzzle, pl: Map<Pos, TrackType>, a: Pos, b: Pos) -> bool {
    exists|d: Direction| #[trigger] open_move(puzzle, pl, a, b, d)
}

/// A sequence of cells, each one open move from the one before.
pub open spec fn open_path(puzzle: &Puzzle, pl: Map<Pos, TrackType>, w: Seq<Pos>) -> bool {
    &&& w.len() >= 1
    &&& forall|i: int| 0 <= i < w.len() - 1 ==> open_step(puzzle, pl, #[trigger] w[i], w[i + 1])
}

/// A goal is reachable only along moves that each enter an open side.
pub proof fn law_reach_through_open_sides(puzzle: &Puzzle, pl: Map<Pos, TrackType>, start: Pos, goal: Pos)
    requires
        spec_can_reach(puzzle, pl, start, goal),
    ensures
        exists|w: Seq<Pos>| #[trigger] open_path(puzzle, pl, w) && w[0] == start && w.last() == goal,
{
    let w = choose|w: Seq<Pos>| #[trigger] is_route(puzzle, pl, w) && w[0] == start && w.last() == goal;
    assert forall|i: int| 0 <= i < w.len() - 1 implies open_step(puzzle, pl, #[trigger] w[i], w[i + 1]) by {
        assert(edge(puzzle, pl, w[i], w[i + 1]));
        let d = choose|d: Direction| #[trigger] edge_via(puzzle, pl, w[i], w[i + 1], d);
        law_moves_enter_open_sides(puzzle, pl, w[i], w[i + 1], d);
    }
    assert(open_path(puzzle, pl, w));
}

/// Every position the reachability search can see.
pub open spec fn reach_universe(puzzle: &Puzzle, start: Pos) -> Seq<Pos> {
    grid_positions(puzzle.rows as nat, puzzle.cols as nat) + tunnel_ends(puzzle.tunnels@) + seq![start]
}

proof fn lemma_universe_grid(puzzle: &Puzzle, start: Pos, p: Pos)
    requires
        p.0 < puzzle.rows,
        p.1 < puzzle.cols,
    ensures
        reach_universe(puzzle, start).contains(p),
{
    lemma_grid_positions_contains(puzzle.rows as nat, puzzle.cols as nat, p);
    let g = grid_positions(puzzle.rows as nat, puzzle.cols as nat);
    let i = choose|i: int| 0 <= i < g.len() && g[i] == p;
    assert(reach_universe(puzzle, start)[i] == p);
}

proof fn lemma_universe_tunnel(puzzle: &Puzzle, start: Pos, np: Pos, facing: Direction)
    requires
        coords_fit(puzzle),
    ensures
        puzzle.spec_tunnel_exit(np, facing) matches Some((p, _)) ==> reach_universe(puzzle, start).contains(p) && coord_ok(p),
{
    lemma_tunnel_exit_in_ends(puzzle.tunnels@, 0, np, facing);
    lemma_tunnel_exit_ok(puzzle, 0, np, facing);
    if let Some((p, _)) = puzzle.spec_tunnel_exit(np, facing) {
        let g = grid_positions(puzzle.rows as nat, puzzle.cols as nat);
        let t = tunnel_ends(puzzle.tunnels@);
        let i = choose|i: int| 0 <= i < t.len() && t[i] == p;
        assert(reach_universe(puzzle, start)[g.len() + i] == p);
    }
}

fn vec_contains(v: &Vec<Pos>, p: Pos) -> (r: bool)
    ensures
        r == v@.contains(p),
{
    let mut i: usize = 0;
    while i < v.len()
        invariant
            i <= v@.len(),
            forall|j: int| 0 <= j < i ==> v@[j] != p,
        decreases v@.len() - i,
    {
        if pos_eq(v[i], p) {
            assert(v@[i as int] == p);
            return true;
        }
        i = i + 1;
    }
    false
}

/// Breadth-first reachability: can a car get from `start` to `goal` through passable cells
/// and tunnels, treating unplaced placeable cells as connecting any sides?
pub fn can_reach(puzzle: &Puzzle, placements: &PosMap<TrackType>, start: Pos, goal: Pos) -> (r: bool)
    requires
        puzzle.wf(),
        coords_fit(puzzle),
        coord_ok(start),
    ensures
        r == spec_can_reach(puzzle, placements@, start, goal),
{
    if pos_eq(start, goal) {
        proof {
            law_reach_self(puzzle, placements@, start);
        }
        return true;
    }
    let ghost pl = placements@;
    let ghost u = reach_universe(puzzle, start);
    let mut seen: Vec<Pos> = Vec::new();
    seen.push(start);
    let mut head: usize = 0;
    proof {
        law_reach_self(puzzle, pl, start);
        assert(u[u.len() - 1] == start);
        assert(seen@[0] == start);
    }
    while head < seen.len()
        invariant
            puzzle.wf(),
            coords_fit(puzzle),
            start != goal,
            u == reach_universe(puzzle, start),
            pl == placements@,
            head <= seen@.len(),
            seen@.len() >= 1,
            seen@[0] == start,
            seen@.no_duplicates(),
            !seen@.contains(goal),
            forall|i: int| 0 <= i < seen@.len() ==> u.contains(#[trigger] seen@[i]),
            forall|i: int| 0 <= i < seen@.len() ==> coord_ok(#[trigger] seen@[i]),
            forall|i: int| 0 <= i < seen@.len() ==> spec_can_reach(puzzle, pl, start, #[trigger] seen@[i]),
            forall|i: int, b: Pos| 0 <= i < head && #[trigger] edge(puzzle, pl, seen@[i], b) ==> seen@.contains(b),
        decreases u.len() - seen@.len(), seen@.len() - head,
    {
        proof {
            lemma_nodup_subset_len(seen@, u);
        }
        let pos = seen[head];
        let ghost h0 = head;
        let ghost n0 = seen@.len();
        let dirs = Direction::all();
        let mut d: usize = 0;
        while d < 4
            invariant
                puzzle.wf(),
                coords_fit(puzzle),
                start != goal,
                u == reach_universe(puzzle, start),
                pl == placements@,
                dirs@ == Direction::spec_all(),
                h0 == head,
                head < n0,
                n0 <= seen@.len(),
                pos == seen@[h0 as int],
                d <= 4,
                seen@.len() >= 1,
                seen@[0] == start,
                seen@.no_duplicates(),
                !seen@.contains(goal),
                forall|i: int| 0 <= i < seen@.len() ==> u.contains(#[trigger] seen@[i]),
                forall|i: int| 0 <= i < seen@.len() ==> coord_ok(#[trigger] seen@[i]),
                forall|i: int| 0 <= i < seen@.len() ==> spec_can_reach(puzzle, pl, start, #[trigger] seen@[i]),
                forall|i: int, b: Pos| 0 <= i < head && #[trigger] edge(puzzle, pl, seen@[i], b) ==> seen@.contains(b),
                forall|dd: int, b: Pos| 0 <= dd < d && #[trigger] edge_via(puzzle, pl, pos, b, Direction::spec_all()[dd]) ==> seen@.contains(b),
            decreases 4 - d,
        {
            let dir = dirs[d];
            assert(coord_ok(seen@[h0 as int]));
            assert(spec_can_reach(puzzle, pl, start, seen@[h0 as int]));
            let np = match step_target(puzzle, pos, dir) {
                Some(np) => np,
                None => {
                    d = d + 1;
                    continue;
                },
            };
            let can_pass = match &puzzle.grid[np.0][np.1] {
                CellKind::Wall => false,
                CellKind::Placeable => {
                    match placements.get(np) {
                        None => true,
                        Some(t) => track_connects_from(&t, dir.opposite()),
                    }
                },
                CellKind::Fixed(t) => track_connects_from(t, dir.opposite()),
                CellKind::Tunnel(_) => true,
                CellKind::Terminal => true,
            };
            assert(can_pass == passable(puzzle, pl, np, dir));
            if !can_pass {
                d = d + 1;
                continue;
            }
            proof {
                lemma_universe_grid(puzzle, start, np);
                assert(edge_via(puzzle, pl, pos, np, dir));
                lemma_reach_step(puzzle, pl, start, pos, np);
            }
            if !vec_contains(&seen, np) {
                if pos_eq(np, goal) {
                    return true;
                }
                proof {
                    lemma_push_seen(seen@, np);
                }
                seen.push(np);
            }
            assert(seen@.contains(np));
            let is_tunnel = match &puzzle.grid[np.0][np.1] {
                CellKind::Tunnel(_) => true,
                _ => false,
            };
            if is_tunnel {
                let mut e: usize = 0;
                while e < 4
                    invariant
                        puzzle.wf(),
                        coords_fit(puzzle),
                        start != goal,
                        u == reach_universe(puzzle, start),
                        pl == placements@,
                        dirs@ == Direction::spec_all(),
                        h0 == head,
                        head < n0,
                        n0 <= seen@.len(),
                        pos == seen@[h0 as int],
                        d < 4,
                        dir == Direction::spec_all()[d as int],
                        neighbor(puzzle, pos, dir) == Some(np),
                        passable(puzzle, pl, np, dir),
                        puzzle.cell(np) is Tunnel,
                        seen@.contains(np),
                        e <= 4,
                        seen@.len() >= 1,
                        seen@[0] == start,
                        seen@.no_duplicates(),
                        !seen@.contains(goal),
                        forall|i: int| 0 <= i < seen@.len() ==> u.contains(#[trigger] seen@[i]),
                        forall|i: int| 0 <= i < seen@.len() ==> coord_ok(#[trigger] seen@[i]),
                        forall|i: int| 0 <= i < seen@.len() ==> spec_can_reach(puzzle, pl, start, #[trigger] seen@[i]),
                        forall|i: int, b: Pos| 0 <= i < head && #[trigger] edge(puzzle, pl, seen@[i], b) ==> seen@.contains(b),
                        forall|dd: int, b: Pos| 0 <= dd < d && #[trigger] edge_via(puzzle, pl, pos, b, Direction::spec_all()[dd]) ==> seen@.contains(b),
                        forall|ee: int, b: Pos| 0 <= ee < e && #[trigger] tunnel_lands(puzzle, np, Direction::spec_all()[ee], b) ==> seen@.contains(b),
                    decreases 4 - e,
                {
                    proof {
                        lemma_universe_tunnel(puzzle, start, np, dirs@[e as int]);
                    }
                    match puzzle.tunnel_exit(np, dirs[e]) {
                        Some((exit_pos, _)) => {
                            proof {
                                assert(tunnel_lands(puzzle, np, dirs@[e as int], exit_pos));
                                assert(edge_via(puzzle, pl, pos, exit_pos, dir));
                                lemma_reach_step(puzzle, pl, start, pos, exit_pos);
                            }
                            if !vec_contains(&seen, exit_pos) {
                                if pos_eq(exit_pos, goal) {
                                    return true;
                                }
                                proof {
                                    lemma_push_seen(seen@, exit_pos);
                                }
                                seen.push(exit_pos);
                            }
                            assert(seen@.contains(exit_pos));
                        },
                        None => {},
                    }
                    e = e + 1;
                }
            }
            proof {
                assert forall|b: Pos| #[trigger] edge_via(puzzle, pl, pos, b, dir) implies seen@.contains(b) by {
                    if b != np {
                        let e0 = choose|e0: Direction| #[trigger] tunnel_lands(puzzle, np, e0, b);
                        let k: int = match e0 {
                            Direction::North => 0,
                            Direction::South => 1,
                            Direction::East => 2,
                            Direction::West => 3,
                        };
                        assert(Direction::spec_all()[k] == e0);
                    }
                }
            }
            d = d + 1;
        }
        proof {
            assert forall|b: Pos| #[trigger] edge(puzzle, pl, pos, b) implies seen@.contains(b) by {
                let d0 = choose|d0: Direction| #[trigger] edge_via(puzzle, pl, pos, b, d0);
                let k: int = match d0 {
                    Direction::North => 0,
                    Direction::South => 1,
                    Direction::East => 2,
                    Direction::West => 3,
                };
                assert(Direction::spec_all()[k] == d0);
            }
            lemma_nodup_subset_len(seen@, u);
        }
        head = head + 1;
    }
    proof {
        if spec_can_reach(puzzle, pl, start, goal) {
            let w = choose|w: Seq<Pos>| #[trigger] is_route(puzzle, pl, w) && w[0] == start && w.last() == goal;
            assert forall|x: Pos, b: Pos| seen@.contains(x) && #[trigger] edge(puzzle, pl, x, b) implies seen@.contains(b) by {
                let i = choose|i: int| 0 <= i < seen@.len() && seen@[i] == x;
            }
            assert(seen@.contains(w[0])) by {
                assert(seen@[0] == start);
            }
            lemma_closed_route(puzzle, pl, seen@, w, w.len() - 1);
        }
    }
    false
}

proof fn lemma_push_seen(s: Seq<Pos>, x: Pos)
    requires
        s.no_duplicates(),
        !s.contains(x),
    ensures
        s.push(x).no_duplicates(),
        s.push(x).contains(x),
        forall|y: Pos| s.contains(y) ==> #[trigger] s.push(x).contains(y),
{
    let t = s.push(x);
    assert(t[s.len() as int] == x);
    assert forall|i: int, j: int| 0 <= i < t.len() && 0 <= j < t.len() && i != j implies t[i] != t[j] by {
        if i == s.len() {
            assert(t[j] == s[j]);
        } else if j == s.len() {
            assert(t[i] == s[i]);
        } else {
            assert(t[i] == s[i] && t[j] == s[j]);
        }
    }
    assert forall|y: Pos| s.contains(y) implies #[trigger] t.contains(y) by {
        let i = choose|i: int| 0 <= i < s.len() && s[i] == y;
        assert(t[i] == y);
    }
}


/// Some caboose of color `color` exists.
pub open spec fn has_caboose(puzzle: &Puzzle, color: u8) -> bool {
    exists|j: int| 0 <= j < puzzle.cabooses@.len() && (#[trigger] puzzle.cabooses@[j]).color == color
}

/// A route leads from `start` to some caboose of color `color`.
pub open spec fn reaches_caboose(puzzle: &Puzzle, pl: Map<Pos, TrackType>, start: Pos, color: u8) -> bool {
    exists|j: int| 0 <= j < puzzle.cabooses@.len() && (#[trigger] puzzle.cabooses@[j]).color == color
        && spec_can_reach(puzzle, pl, start, puzzle.cabooses@[j].row_col())
}

/// Every car whose color has a caboose can reach one of them.
pub open spec fn spec_connectivity_ok(puzzle: &Puzzle, pl: Map<Pos, TrackType>) -> bool {
    forall|k: int| 0 <= k < puzzle.cars@.len() && has_caboose(puzzle, (#[trigger] puzzle.cars@[k]).color)
        ==> reaches_caboose(puzzle, pl, puzzle.cars@[k].row_col(), puzzle.cars@[k].color)
}

/// Check that every car whose color has a caboose can still reach one of them through the
/// current placement plus all remaining unplaced cells (treated as passable wildcards).
pub fn connectivity_ok(puzzle: &Puzzle, placements: &PosMap<TrackType>) -> (r: bool)
    requires
        puzzle.wf(),
        coords_fit(puzzle),
    ensures
        r == spec_connectivity_ok(puzzle, placements@),
{
    let mut k: usize = 0;
    while k < puzzle.cars.len()
        invariant
            puzzle.wf(),
            coords_fit(puzzle),
            k <= puzzle.cars@.len(),
            forall|kk: int| 0 <= kk < k && has_caboose(puzzle, (#[trigger] puzzle.cars@[kk]).color)
                ==> reaches_caboose(puzzle, placements@, puzzle.cars@[kk].row_col(), puzzle.cars@[kk].color),
        decreases puzzle.cars@.len() - k,
    {
        let car = puzzle.cars[k];
        assert(coord_ok(puzzle.cars@[k as int].row_col()));
        let mut j: usize = 0;
        let mut any = false;
        let mut ok = false;
        while j < puzzle.cabooses.len()
            invariant_except_break
                puzzle.wf(),
                coords_fit(puzzle),
                car == puzzle.cars@[k as int],
                coord_ok(car.row_col()),
                j <= puzzle.cabooses@.len(),
                !ok,
                any == exists|jj: int| 0 <= jj < j && (#[trigger] puzzle.cabooses@[jj]).color == car.color,
                forall|jj: int| 0 <= jj < j && (#[trigger] puzzle.cabooses@[jj]).color == car.color
                    ==> !spec_can_reach(puzzle, placements@, car.row_col(), puzzle.cabooses@[jj].row_col()),
            ensures
                ok ==> reaches_caboose(puzzle, placements@, car.row_col(), car.color),
                !ok ==> (any <==> has_caboose(puzzle, car.color)),
                !ok ==> !reaches_caboose(puzzle, placements@, car.row_col(), car.color),
            decreases puzzle.cabooses@.len() - j,
        {
            let cab = puzzle.cabooses[j];
            if cab.color == car.color {
                any = true;
                if can_reach(puzzle, placements, (car.row, car.col), (cab.row, cab.col)) {
                    ok = true;
                    break;
                }
            }
            j = j + 1;
        }
        if any && !ok {
            return false;
        }
        k = k + 1;
    }
    true
}

} // verus!
