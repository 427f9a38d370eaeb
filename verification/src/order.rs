use vstd::prelude::*;
use crate::posmap::{pos_lt, Pos, PosMap};
use crate::puzzle::{CellKind, Puzzle};
use crate::reach::{grid_positions, lemma_grid_positions_contains, lemma_nodup_subset_len};
use crate::simulation::{coord_ok, coords_fit, neighbor, step_target};
use crate::types::Direction;

verus! {

/// The starting points of the distance search: every car, then every caboose.
pub open spec fn bfs_sources(puzzle: &Puzzle) -> Seq<Pos> {
    puzzle.cars@.map_values(|c: crate::puzzle::Car| c.row_col())
        + puzzle.cabooses@.map_values(|c: crate::puzzle::Caboose| c.row_col())
}

/// A breadth-first distance search: distances found so far, the queue, and its front.
pub struct DistBfs {
    pub dist: Map<Pos, usize>,
    pub queue: Seq<Pos>,
    pub head: nat,
}

pub enum DistState {
    Searching(DistBfs),
    Finished(Map<Pos, usize>),
}

/// Seeds the search with the sources from index `k` on, each at distance 0, once.
pub open spec fn seed(srcs: Seq<Pos>, b: DistBfs, k: int) -> DistBfs
    decreases srcs.len() - k,
{
    if k < 0 || k >= srcs.len() {
        b
    } else if b.dist.contains_key(srcs[k]) {
        seed(srcs, b, k + 1)
    } else {
        seed(srcs, DistBfs { dist: b.dist.insert(srcs[k], 0), queue: b.queue.push(srcs[k]), ..b }, k + 1)
    }
}

/// Gives each unseen, non-wall neighbour of `pos` (directions from index `d` on) distance `dv + 1`.
pub open spec fn dist_explore(puzzle: &Puzzle, b: DistBfs, pos: Pos, dv: int, d: int) -> DistBfs
    decreases 4 - d,
{
    if d < 0 || d >= 4 {
        b
    } else {
        match neighbor(puzzle, pos, Direction::spec_all()[d]) {
            Some(np) => if !b.dist.contains_key(np) && puzzle.cell(np) != CellKind::Wall {
                dist_explore(
                    puzzle,
                    DistBfs { dist: b.dist.insert(np, (dv + 1) as usize), queue: b.queue.push(np), ..b },
                    pos,
                    dv,
                    d + 1,
                )
            } else {
                dist_explore(puzzle, b, pos, dv, d + 1)
            },
            None => dist_explore(puzzle, b, pos, dv, d + 1),
        }
    }
}

pub open spec fn dist_step(puzzle: &Puzzle, b: DistBfs) -> DistState {
    if b.head >= b.queue.len() {
        DistState::Finished(b.dist)
    } else {
        let pos = b.queue[b.head as int];
        DistState::Searching(dist_explore(puzzle, DistBfs { head: b.head + 1, ..b }, pos, b.dist[pos] as int, 0))
    }
}

pub open spec fn dist_iter(puzzle: &Puzzle, s: DistState, k: nat) -> DistState
    decreases k,
{
    if k == 0 {
        s
    } else {
        match s {
            DistState::Searching(b) => dist_iter(puzzle, dist_step(puzzle, b), (k - 1) as nat),
            _ => s,
        }
    }
}

pub open spec fn dist_init(puzzle: &Puzzle) -> DistState {
    DistState::Searching(seed(bfs_sources(puzzle), DistBfs { dist: Map::empty(), queue: Seq::empty(), head: 0 }, 0))
}

/// The breadth-first distances of the cells from the cars and cabooses: walls are not
/// entered, and cells that cannot be reached have no distance.
pub open spec fn bfs_distances(puzzle: &Puzzle) -> Map<Pos, usize> {
    let k = choose|k: nat| #[trigger] dist_iter(puzzle, dist_init(puzzle), k) is Finished;
    match dist_iter(puzzle, dist_init(puzzle), k) {
        DistState::Finished(m) => m,
        DistState::Searching(b) => b.dist,
    }
}

/// The sort key of a cell: its distance, or `usize::MAX` when it has none.
pub open spec fn dist_key(m: Map<Pos, usize>, p: Pos) -> usize {
    if m.contains_key(p) { m[p] } else { usize::MAX }
}

/// `x` inserted into `s` after the last element whose key is at most `x`'s.
pub open spec fn insert_sorted(s: Seq<Pos>, x: Pos, m: Map<Pos, usize>) -> Seq<Pos>
    decreases s.len(),
{
    if s.len() == 0 {
        seq![x]
    } else if dist_key(m, s.last()) <= dist_key(m, x) {
        s.push(x)
    } else {
        insert_sorted(s.drop_last(), x, m).push(s.last())
    }
}

/// The stable sort of `s` by distance key.
pub open spec fn sort_by_dist(s: Seq<Pos>, m: Map<Pos, usize>) -> Seq<Pos>
    decreases s.len(),
{
    if s.len() == 0 {
        Seq::empty()
    } else {
        insert_sorted(sort_by_dist(s.drop_last(), m), s.last(), m)
    }
}

/// The placeable cells sorted by breadth-first distance from the trains and cabooses
/// (closer first, row-major among equals).
pub open spec fn spec_ordered_cells(puzzle: &Puzzle) -> Seq<Pos> {
    sort_by_dist(puzzle.spec_placeable_cells(), bfs_distances(puzzle))
}

proof fn lemma_dist_iter_succ(puzzle: &Puzzle, s: DistState, k: nat)
    ensures
        dist_iter(puzzle, s, k + 1) == match dist_iter(puzzle, s, k) {
            DistState::Searching(b) => dist_step(puzzle, b),
            o => o,
        },
    decreases k,
{
    match s {
        DistState::Searching(b) => {
            let s2 = dist_step(puzzle, b);
            assert(dist_iter(puzzle, s, k + 1) == dist_iter(puzzle, s2, k));
            if k > 0 {
                lemma_dist_iter_succ(puzzle, s2, (k - 1) as nat);
                assert(dist_iter(puzzle, s, k) == dist_iter(puzzle, s2, (k - 1) as nat));
            } else {
                assert(dist_iter(puzzle, s2, 0) == s2);
            }
        },
        _ => {
            assert(dist_iter(puzzle, s, k + 1) == s);
            assert(dist_iter(puzzle, s, k) == s);
        },
    }
}

proof fn lemma_dist_finished_stays(puzzle: &Puzzle, s: DistState, m: nat, k: nat)
    requires
        dist_iter(puzzle, s, m) is Finished,
        k >= m,
    ensures
        dist_iter(puzzle, s, k) == dist_iter(puzzle, s, m),
    decreases k - m,
{
    if k > m {
        lemma_dist_finished_stays(puzzle, s, m, (k - 1) as nat);
        lemma_dist_iter_succ(puzzle, s, (k - 1) as nat);
    }
}

/// Once the search has finished at round `k` with map `m`, `m` is the distance map.
proof fn lemma_bfs_distances(puzzle: &Puzzle, k: nat, m: Map<Pos, usize>)
    requires
        dist_iter(puzzle, dist_init(puzzle), k) == DistState::Finished(m),
    ensures
        bfs_distances(puzzle) == m,
{
    assert(dist_iter(puzzle, dist_init(puzzle), k) is Finished);
    let k2 = choose|k2: nat| #[trigger] dist_iter(puzzle, dist_init(puzzle), k2) is Finished;
    if k2 >= k {
        lemma_dist_finished_stays(puzzle, dist_init(puzzle), k, k2);
    } else {
        lemma_dist_finished_stays(puzzle, dist_init(puzzle), k2, k);
    }
}

/// Every position the distance search can see.
pub open spec fn dist_universe(puzzle: &Puzzle) -> Seq<Pos> {
    grid_positions(puzzle.rows as nat, puzzle.cols as nat) + bfs_sources(puzzle)
}

pub open spec fn dist_ok(puzzle: &Puzzle, b: DistBfs) -> bool {
    &&& queue_ok(puzzle, b)
    &&& forall|i: int| 0 <= i < b.queue.len() ==> coord_ok(#[trigger] b.queue[i])
}

proof fn lemma_dist_push(puzzle: &Puzzle, b: DistBfs, p: Pos, v: usize)
    requires
        dist_ok(puzzle, b),
        !b.dist.contains_key(p),
        dist_universe(puzzle).contains(p),
        coord_ok(p),
        v <= b.queue.len(),
    ensures
        dist_ok(puzzle, DistBfs { dist: b.dist.insert(p, v), queue: b.queue.push(p), ..b }),
{
    lemma_push_queue(puzzle, b, p, v);
    let q2 = b.queue.push(p);
    assert forall|i: int| 0 <= i < q2.len() implies coord_ok(#[trigger] q2[i]) by {
        if i < b.queue.len() {
            assert(q2[i] == b.queue[i]);
        }
    }
}

proof fn lemma_dist_ok_head(puzzle: &Puzzle, b: DistBfs, h: nat)
    requires
        dist_ok(puzzle, b),
        h <= b.queue.len(),
    ensures
        dist_ok(puzzle, DistBfs { head: h, ..b }),
{
}

fn sources_vec(puzzle: &Puzzle) -> (r: Vec<Pos>)
    ensures
        r@ == bfs_sources(puzzle),
{
    let mut v: Vec<Pos> = Vec::new();
    let mut i: usize = 0;
    let ghost cars = puzzle.cars@.map_values(|c: crate::puzzle::Car| c.row_col());
    let ghost cabs = puzzle.cabooses@.map_values(|c: crate::puzzle::Caboose| c.row_col());
    while i < puzzle.cars.len()
        invariant
            i <= puzzle.cars@.len(),
            cars == puzzle.cars@.map_values(|c: crate::puzzle::Car| c.row_col()),
            v@ == cars.take(i as int),
        decreases puzzle.cars@.len() - i,
    {
        v.push((puzzle.cars[i].row, puzzle.cars[i].col));
        assert(cars.take(i + 1) == cars.take(i as int).push(cars[i as int]));
        i = i + 1;
    }
    assert(cars.take(cars.len() as int) == cars);
    let mut j: usize = 0;
    while j < puzzle.cabooses.len()
        invariant
            j <= puzzle.cabooses@.len(),
            cars == puzzle.cars@.map_values(|c: crate::puzzle::Car| c.row_col()),
            cabs == puzzle.cabooses@.map_values(|c: crate::puzzle::Caboose| c.row_col()),
            v@ == cars + cabs.take(j as int),
        decreases puzzle.cabooses@.len() - j,
    {
        v.push((puzzle.cabooses[j].row, puzzle.cabooses[j].col));
        assert(cabs.take(j + 1) == cabs.take(j as int).push(cabs[j as int]));
        j = j + 1;
    }
    assert(cabs.take(cabs.len() as int) == cabs);
    v
}

/// The breadth-first distance of each cell from the trains and cabooses.
fn distances(puzzle: &Puzzle) -> (r: PosMap<usize>)
    requires
        puzzle.wf(),
        coords_fit(puzzle),
    ensures
        r@ == bfs_distances(puzzle),
{
    let srcs = sources_vec(puzzle);
    let ghost u = dist_universe(puzzle);
    let mut dist: PosMap<usize> = PosMap::new();
    let mut queue: Vec<Pos> = Vec::new();
    let ghost b0 = DistBfs { dist: Map::empty(), queue: Seq::empty(), head: 0 };
    let mut k: usize = 0;
    proof {
        assert(dist@ == b0.dist);
        assert(dist_ok(puzzle, b0));
    }
    while k < srcs.len()
        invariant
            puzzle.wf(),
            coords_fit(puzzle),
            srcs@ == bfs_sources(puzzle),
            u == dist_universe(puzzle),
            k <= srcs@.len(),
            dist_ok(puzzle, DistBfs { dist: dist@, queue: queue@, head: 0 }),
            seed(srcs@, b0, 0) == seed(srcs@, DistBfs { dist: dist@, queue: queue@, head: 0 }, k as int),
        decreases srcs@.len() - k,
    {
        let p = srcs[k];
        if !dist.contains_key(p) {
            proof {
                let g = grid_positions(puzzle.rows as nat, puzzle.cols as nat);
                assert(u[g.len() + k] == p);
                let nc = puzzle.cars@.len();
                if k < nc {
                    assert(p == puzzle.cars@[k as int].row_col());
                } else {
                    assert(p == puzzle.cabooses@[k - nc].row_col());
                }
                lemma_dist_push(puzzle, DistBfs { dist: dist@, queue: queue@, head: 0 }, p, 0);
            }
            dist.insert(p, 0);
            queue.push(p);
        }
        k = k + 1;
    }
    let ghost init = dist_init(puzzle);
    let ghost mut iters: nat = 0;
    let mut head: usize = 0;
    while head < queue.len()
        invariant
            puzzle.wf(),
            coords_fit(puzzle),
            u == dist_universe(puzzle),
            init == dist_init(puzzle),
            dist_ok(puzzle, DistBfs { dist: dist@, queue: queue@, head: head as nat }),
            dist_iter(puzzle, init, iters) == DistState::Searching(DistBfs { dist: dist@, queue: queue@, head: head as nat }),
        decreases u.len() - queue@.len(), queue@.len() - head,
    {
        proof {
            lemma_nodup_subset_len(queue@, u);
        }
        let ghost q0 = queue@;
        let ghost h0 = head;
        let qlen = queue.len();
        let pos = queue[head];
        head = head + 1;
        let dv = match dist.get(pos) {
            Some(v) => v,
            None => 0,
        };
        proof {
            assert(queue@.contains(pos)) by {
                assert(queue@[h0 as int] == pos);
            }
            let bb = DistBfs { dist: dist@, queue: queue@, head: h0 as nat };
            assert(dist_ok(puzzle, bb));
            assert(bb.dist.contains_key(pos) <==> bb.queue.contains(pos));
            assert(dist@.contains_key(pos));
            assert(dv < q0.len());
            assert(q0.len() == qlen);
            lemma_dist_ok_head(puzzle, DistBfs { dist: dist@, queue: queue@, head: h0 as nat }, head as nat);
        }
        let ghost b1 = DistBfs { dist: dist@, queue: queue@, head: head as nat };
        let dirs = Direction::all();
        let mut d: usize = 0;
        while d < 4
            invariant
                puzzle.wf(),
                coords_fit(puzzle),
                u == dist_universe(puzzle),
                dirs@ == Direction::spec_all(),
                d <= 4,
                coord_ok(pos),
                dv < q0.len(),
                q0.len() <= usize::MAX,
                queue@.len() >= q0.len(),
                head == h0 + 1,
                h0 < q0.len(),
                dist_ok(puzzle, DistBfs { dist: dist@, queue: queue@, head: head as nat }),
                dist_explore(puzzle, b1, pos, dv as int, 0) == dist_explore(
                    puzzle,
                    DistBfs { dist: dist@, queue: queue@, head: head as nat },
                    pos,
                    dv as int,
                    d as int,
                ),
            decreases 4 - d,
        {
            match step_target(puzzle, pos, dirs[d]) {
                Some(np) => {
                    let is_wall = match &puzzle.grid[np.0][np.1] {
                        CellKind::Wall => true,
                        _ => false,
                    };
                    if !dist.contains_key(np) && !is_wall {
                        proof {
                            lemma_grid_positions_contains(puzzle.rows as nat, puzzle.cols as nat, np);
                            let g = grid_positions(puzzle.rows as nat, puzzle.cols as nat);
                            let i = choose|i: int| 0 <= i < g.len() && g[i] == np;
                            assert(u[i] == np);
                            lemma_dist_push(puzzle, DistBfs { dist: dist@, queue: queue@, head: head as nat }, np, (dv + 1) as usize);
                        }
                        dist.insert(np, dv + 1);
                        queue.push(np);
                    }
                },
                None => {},
            }
            d = d + 1;
        }
        proof {
            lemma_dist_iter_succ(puzzle, init, iters);
            iters = iters + 1;
            lemma_nodup_subset_len(queue@, u);
        }
    }
    proof {
        lemma_dist_iter_succ(puzzle, init, iters);
        lemma_bfs_distances(puzzle, iters + 1, dist@);
    }
    dist
}

fn key_of(dist: &PosMap<usize>, p: Pos) -> (r: usize)
    ensures
        r == dist_key(dist@, p),
{
    match dist.get(p) {
        Some(v) => v,
        None => usize::MAX,
    }
}

/// Order the placeable cells by breadth-first distance from the trains and cabooses
/// (closer cells are more constrained and are tried first); the sort is stable.
pub fn ordered_cells(puzzle: &Puzzle) -> (r: Vec<Pos>)
    requires
        puzzle.wf(),
        coords_fit(puzzle),
    ensures
        r@ == spec_ordered_cells(puzzle),
{
    let dist = distances(puzzle);
    let placeable = puzzle.placeable_cells();
    let ghost m = dist@;
    let mut out: Vec<Pos> = Vec::new();
    let mut i: usize = 0;
    while i < placeable.len()
        invariant
            i <= placeable@.len(),
            m == dist@,
            out@ == sort_by_dist(placeable@.take(i as int), m),
        decreases placeable@.len() - i,
    {
        let x = placeable[i];
        let kx = key_of(&dist, x);
        let mut j: usize = out.len();
        proof {
            assert(out@.take(j as int) == out@);
            assert(out@.skip(j as int) == Seq::<Pos>::empty());
            assert(insert_sorted(out@, x, m) == insert_sorted(out@.take(j as int), x, m) + out@.skip(j as int));
        }
        while j > 0 && key_of(&dist, out[j - 1]) > kx
            invariant
                j <= out@.len(),
                m == dist@,
                kx == dist_key(m, x),
                insert_sorted(out@, x, m) == insert_sorted(out@.take(j as int), x, m) + out@.skip(j as int),
            decreases j,
        {
            proof {
                let t = out@.take(j as int);
                assert(t.drop_last() == out@.take(j - 1));
                assert(t.last() == out@[j - 1]);
                assert(insert_sorted(t, x, m) == insert_sorted(out@.take(j - 1), x, m).push(out@[j - 1]));
                assert(out@.skip(j - 1) == seq![out@[j - 1]] + out@.skip(j as int));
                assert(insert_sorted(out@.take(j - 1), x, m).push(out@[j - 1]) + out@.skip(j as int)
                    == insert_sorted(out@.take(j - 1), x, m) + out@.skip(j - 1));
            }
            j = j - 1;
        }
        proof {
            let t = out@.take(j as int);
            if j > 0 {
                assert(t.last() == out@[j - 1]);
            }
            assert(insert_sorted(t, x, m) == t.push(x));
            assert(out@.insert(j as int, x) == t.push(x) + out@.skip(j as int));
            assert(placeable@.take(i + 1).drop_last() == placeable@.take(i as int));
            assert(placeable@.take(i + 1).last() == x);
        }
        out.insert(j, x);
        i = i + 1;
    }
    proof {
        assert(placeable@.take(placeable@.len() as int) == placeable@);
    }
    out
}


proof fn lemma_insert_sorted(s: Seq<Pos>, x: Pos, m: Map<Pos, usize>)
    ensures
        insert_sorted(s, x, m).len() == s.len() + 1,
        forall|y: Pos| #[trigger] insert_sorted(s, x, m).contains(y) <==> s.contains(y) || y == x,
        s.no_duplicates() && !s.contains(x) ==> insert_sorted(s, x, m).no_duplicates(),
    decreases s.len(),
{
    let r = insert_sorted(s, x, m);
    if s.len() == 0 {
        assert forall|y: Pos| #[trigger] r.contains(y) <==> s.contains(y) || y == x by {
            if y == x {
                assert(r[0] == x);
            }
        }
    } else if dist_key(m, s.last()) <= dist_key(m, x) {
        assert forall|y: Pos| #[trigger] r.contains(y) <==> s.contains(y) || y == x by {
            if y == x {
                assert(r[s.len() as int] == x);
            }
            if s.contains(y) {
                let i = choose|i: int| 0 <= i < s.len() && s[i] == y;
                assert(r[i] == y);
            }
        }
        if s.no_duplicates() && !s.contains(x) {
            assert forall|i: int, j: int| 0 <= i < r.len() && 0 <= j < r.len() && i != j implies r[i] != r[j] by {
                if i == s.len() {
                    assert(s[j] == r[j]);
                } else if j == s.len() {
                    assert(s[i] == r[i]);
                } else {
                    assert(s[i] == r[i] && s[j] == r[j]);
                }
            }
        }
    } else {
        let d = s.drop_last();
        let inner = insert_sorted(d, x, m);
        lemma_insert_sorted(d, x, m);
        assert(r == inner.push(s.last()));
        assert forall|y: Pos| #[trigger] r.contains(y) <==> s.contains(y) || y == x by {
            if r.contains(y) {
                let i = choose|i: int| 0 <= i < r.len() && r[i] == y;
                if i < inner.len() {
                    assert(inner.contains(y));
                    if d.contains(y) {
                        let k = choose|k: int| 0 <= k < d.len() && d[k] == y;
                        assert(s[k] == y);
                    }
                } else {
                    assert(s[s.len() - 1] == y);
                }
            }
            if s.contains(y) {
                let i = choose|i: int| 0 <= i < s.len() && s[i] == y;
                if i < s.len() - 1 {
                    assert(d[i] == y);
                    assert(inner.contains(y));
                    let k = choose|k: int| 0 <= k < inner.len() && inner[k] == y;
                    assert(r[k] == y);
                } else {
                    assert(r[inner.len() as int] == y);
                }
            }
            if y == x {
                assert(inner.contains(x));
                let k = choose|k: int| 0 <= k < inner.len() && inner[k] == x;
                assert(r[k] == x);
            }
        }
        if s.no_duplicates() && !s.contains(x) {
            assert(d.no_duplicates()) by {
                assert forall|i: int, j: int| 0 <= i < d.len() && 0 <= j < d.len() && i != j implies d[i] != d[j] by {
                    assert(s[i] == d[i] && s[j] == d[j]);
                }
            }
            assert(!d.contains(x)) by {
                if d.contains(x) {
                    let k = choose|k: int| 0 <= k < d.len() && d[k] == x;
                    assert(s[k] == x);
                }
            }
            let l = s.last();
            assert(!inner.contains(l)) by {
                if inner.contains(l) {
                    if d.contains(l) {
                        let k = choose|k: int| 0 <= k < d.len() && d[k] == l;
                        assert(s[k] == s[s.len() - 1]);
                    } else {
                        assert(l == x);
                        assert(s[s.len() - 1] == x);
                    }
                }
            }
            assert forall|i: int, j: int| 0 <= i < r.len() && 0 <= j < r.len() && i != j implies r[i] != r[j] by {
                if i == inner.len() {
                    assert(inner[j] == r[j]);
                } else if j == inner.len() {
                    assert(inner[i] == r[i]);
                } else {
                    assert(inner[i] == r[i] && inner[j] == r[j]);
                }
            }
        }
    }
}

proof fn lemma_sort_by_dist(s: Seq<Pos>, m: Map<Pos, usize>)
    ensures
        sort_by_dist(s, m).len() == s.len(),
        forall|y: Pos| #[trigger] sort_by_dist(s, m).contains(y) <==> s.contains(y),
        s.no_duplicates() ==> sort_by_dist(s, m).no_duplicates(),
    decreases s.len(),
{
    if s.len() > 0 {
        let d = s.drop_last();
        lemma_sort_by_dist(d, m);
        let sd = sort_by_dist(d, m);
        lemma_insert_sorted(sd, s.last(), m);
        assert forall|y: Pos| #[trigger] sort_by_dist(s, m).contains(y) <==> s.contains(y) by {
            if s.contains(y) {
                let i = choose|i: int| 0 <= i < s.len() && s[i] == y;
                if i < s.len() - 1 {
                    assert(d[i] == y);
                    assert(d.contains(y));
                }
            }
            if d.contains(y) {
                let k = choose|k: int| 0 <= k < d.len() && d[k] == y;
                assert(s[k] == y);
            }
        }
        if s.no_duplicates() {
            assert(d.no_duplicates()) by {
                assert forall|i: int, j: int| 0 <= i < d.len() && 0 <= j < d.len() && i != j implies d[i] != d[j] by {
                    assert(s[i] == d[i] && s[j] == d[j]);
                }
            }
            assert(!sd.contains(s.last())) by {
                if d.contains(s.last()) {
                    let k = choose|k: int| 0 <= k < d.len() && d[k] == s.last();
                    assert(s[k] == s[s.len() - 1]);
                }
            }
        }
    }
}

/// Keys never decrease along `s`.
pub open spec fn sorted_by_dist(s: Seq<Pos>, m: Map<Pos, usize>) -> bool {
    forall|i: int, j: int| 0 <= i < j < s.len() ==> dist_key(m, #[trigger] s[i]) <= dist_key(m, #[trigger] s[j])
}

proof fn lemma_insert_sorted_keeps_order(s: Seq<Pos>, x: Pos, m: Map<Pos, usize>)
    requires
        sorted_by_dist(s, m),
    ensures
        sorted_by_dist(insert_sorted(s, x, m), m),
    decreases s.len(),
{
    let r = insert_sorted(s, x, m);
    if s.len() > 0 {
        let last = s.last();
        if dist_key(m, last) <= dist_key(m, x) {
            assert forall|i: int, j: int| 0 <= i < j < r.len() implies dist_key(m, #[trigger] r[i]) <= dist_key(m, #[trigger] r[j]) by {
                if j == s.len() {
                    if i < s.len() - 1 {
                        assert(dist_key(m, s[i]) <= dist_key(m, s[s.len() - 1]));
                    }
                }
            }
        } else {
            let d = s.drop_last();
            assert(sorted_by_dist(d, m)) by {
                assert forall|i: int, j: int| 0 <= i < j < d.len() implies dist_key(m, #[trigger] d[i]) <= dist_key(m, #[trigger] d[j]) by {
                    assert(d[i] == s[i] && d[j] == s[j]);
                }
            }
            lemma_insert_sorted_keeps_order(d, x, m);
            lemma_insert_sorted(d, x, m);
            let inner = insert_sorted(d, x, m);
            assert(r == inner.push(last));
            assert forall|i: int, j: int| 0 <= i < j < r.len() implies dist_key(m, #[trigger] r[i]) <= dist_key(m, #[trigger] r[j]) by {
                if j == inner.len() {
                    let y = inner[i];
                    assert(inner.contains(y));
                    if y != x {
                        assert(d.contains(y));
                        let k = choose|k: int| 0 <= k < d.len() && d[k] == y;
                        assert(s[k] == y);
                        assert(dist_key(m, s[k]) <= dist_key(m, s[s.len() - 1]));
                    }
                } else {
                    assert(r[i] == inner[i] && r[j] == inner[j]);
                }
            }
        }
    }
}

proof fn lemma_sort_by_dist_sorted(s: Seq<Pos>, m: Map<Pos, usize>)
    ensures
        sorted_by_dist(sort_by_dist(s, m), m),
    decreases s.len(),
{
    if s.len() > 0 {
        lemma_sort_by_dist_sorted(s.drop_last(), m);
        lemma_insert_sorted_keeps_order(sort_by_dist(s.drop_last(), m), s.last(), m);
    }
}

/// Keys never decrease along `s`, and cells with equal keys come in row-major order.
pub open spec fn sorted_stably(s: Seq<Pos>, m: Map<Pos, usize>) -> bool {
    forall|i: int, j: int| 0 <= i < j < s.len() ==> dist_key(m, #[trigger] s[i]) < dist_key(m, #[trigger] s[j])
        || (dist_key(m, s[i]) == dist_key(m, s[j]) && pos_lt(s[i], s[j]))
}

proof fn lemma_insert_stably(s: Seq<Pos>, x: Pos, m: Map<Pos, usize>)
    requires
        sorted_stably(s, m),
        forall|i: int| 0 <= i < s.len() ==> pos_lt(#[trigger] s[i], x),
    ensures
        sorted_stably(insert_sorted(s, x, m), m),
    decreases s.len(),
{
    let r = insert_sorted(s, x, m);
    if s.len() > 0 {
        let last = s.last();
        if dist_key(m, last) <= dist_key(m, x) {
            assert forall|i: int, j: int| 0 <= i < j < r.len() implies dist_key(m, #[trigger] r[i]) < dist_key(m, #[trigger] r[j])
                || (dist_key(m, r[i]) == dist_key(m, r[j]) && pos_lt(r[i], r[j])) by {
                if j == s.len() {
                    assert(r[i] == s[i]);
                    assert(pos_lt(s[i], x));
                    if i < s.len() - 1 {
                        assert(dist_key(m, s[i]) <= dist_key(m, s[s.len() - 1]));
                    }
                } else {
                    assert(r[i] == s[i] && r[j] == s[j]);
                }
            }
        } else {
            let d = s.drop_last();
            assert(sorted_stably(d, m)) by {
                assert forall|i: int, j: int| 0 <= i < j < d.len() implies dist_key(m, #[trigger] d[i]) < dist_key(m, #[trigger] d[j])
                    || (dist_key(m, d[i]) == dist_key(m, d[j]) && pos_lt(d[i], d[j])) by {
                    assert(d[i] == s[i] && d[j] == s[j]);
                }
            }
            assert forall|i: int| 0 <= i < d.len() implies pos_lt(#[trigger] d[i], x) by {
                assert(d[i] == s[i]);
            }
            lemma_insert_stably(d, x, m);
            lemma_insert_sorted(d, x, m);
            let inner = insert_sorted(d, x, m);
            assert(r == inner.push(last));
            assert forall|i: int, j: int| 0 <= i < j < r.len() implies dist_key(m, #[trigger] r[i]) < dist_key(m, #[trigger] r[j])
                || (dist_key(m, r[i]) == dist_key(m, r[j]) && pos_lt(r[i], r[j])) by {
                if j == inner.len() {
                    let y = inner[i];
                    assert(r[i] == y && r[j] == last);
                    assert(inner.contains(y));
                    if y != x {
                        assert(d.contains(y));
                        let k = choose|k: int| 0 <= k < d.len() && d[k] == y;
                        assert(s[k] == y);
                        assert(s[s.len() - 1] == last);
                    }
                } else {
                    assert(r[i] == inner[i] && r[j] == inner[j]);
                }
            }
        }
    }
}

proof fn lemma_sort_stably(s: Seq<Pos>, m: Map<Pos, usize>)
    requires
        forall|i: int, j: int| 0 <= i < j < s.len() ==> pos_lt(#[trigger] s[i], #[trigger] s[j]),
    ensures
        sorted_stably(sort_by_dist(s, m), m),
    decreases s.len(),
{
    if s.len() > 0 {
        let d = s.drop_last();
        assert forall|i: int, j: int| 0 <= i < j < d.len() implies pos_lt(#[trigger] d[i], #[trigger] d[j]) by {
            assert(d[i] == s[i] && d[j] == s[j]);
        }
        lemma_sort_stably(d, m);
        lemma_sort_by_dist(d, m);
        let sd = sort_by_dist(d, m);
        assert forall|i: int| 0 <= i < sd.len() implies pos_lt(#[trigger] sd[i], s.last()) by {
            assert(sd.contains(sd[i]));
            assert(d.contains(sd[i]));
            let k = choose|k: int| 0 <= k < d.len() && d[k] == sd[i];
            assert(s[k] == sd[i]);
            assert(s[s.len() - 1] == s.last());
        }
        lemma_insert_stably(sd, s.last(), m);
    }
}

/// The ordered cells are exactly the placeable cells, each once; their distances from the
/// trains and cabooses never decrease along the order, and cells at equal distance come in
/// row-major order.
pub proof fn lemma_ordered_cells(puzzle: &Puzzle)
    requires
        puzzle.wf(),
    ensures
        spec_ordered_cells(puzzle).no_duplicates(),
        forall|p: Pos| #[trigger] spec_ordered_cells(puzzle).contains(p) <==> puzzle.spec_placeable_cells().contains(p),
        sorted_by_dist(spec_ordered_cells(puzzle), bfs_distances(puzzle)),
        sorted_stably(spec_ordered_cells(puzzle), bfs_distances(puzzle)),
{
    puzzle.lemma_placeable_cells();
    lemma_sort_by_dist(puzzle.spec_placeable_cells(), bfs_distances(puzzle));
    lemma_sort_by_dist_sorted(puzzle.spec_placeable_cells(), bfs_distances(puzzle));
    lemma_sort_stably(puzzle.spec_placeable_cells(), bfs_distances(puzzle));
}


// ── The distances are those of shortest walks ───────────────────────────────

/// `p` can be entered from `q` in one step: it is a grid neighbour of `q` and no wall.
pub open spec fn moves(puzzle: &Puzzle, q: Pos, p: Pos) -> bool {
    &&& exists|d: Direction| #[trigger] neighbor(puzzle, q, d) == Some(p)
    &&& puzzle.cell(p) != CellKind::Wall
}

/// A walk from a car or a caboose: each step enters a grid neighbour that is no wall.
pub open spec fn walk(puzzle: &Puzzle, w: Seq<Pos>) -> bool {
    &&& w.len() >= 1
    &&& bfs_sources(puzzle).contains(w[0])
    &&& forall|i: int| 0 <= i < w.len() - 1 ==> moves(puzzle, #[trigger] w[i], w[i + 1])
}

/// `p` lies at most `k` steps from a car or a caboose.
pub open spec fn within(puzzle: &Puzzle, p: Pos, k: nat) -> bool {
    exists|w: Seq<Pos>| #[trigger] walk(puzzle, w) && w.last() == p && w.len() <= k + 1
}

proof fn lemma_within_source(puzzle: &Puzzle, s: Pos)
    requires
        bfs_sources(puzzle).contains(s),
    ensures
        within(puzzle, s, 0),
{
    let w = seq![s];
    assert(walk(puzzle, w));
}

proof fn lemma_within_step(puzzle: &Puzzle, q: Pos, k: nat, p: Pos)
    requires
        within(puzzle, q, k),
        moves(puzzle, q, p),
    ensures
        within(puzzle, p, k + 1),
{
    let w = choose|w: Seq<Pos>| #[trigger] walk(puzzle, w) && w.last() == q && w.len() <= k + 1;
    let w2 = w.push(p);
    assert forall|i: int| 0 <= i < w2.len() - 1 implies moves(puzzle, #[trigger] w2[i], w2[i + 1]) by {
        if i < w.len() - 1 {
            assert(w2[i] == w[i] && w2[i + 1] == w[i + 1]);
            assert(moves(puzzle, w[i], w[i + 1]));
        } else {
            assert(w2[i] == q && w2[i + 1] == p);
        }
    }
    assert(walk(puzzle, w2));
}

/// The bookkeeping of the search: the queue holds each found cell once, in the order found.
pub open spec fn queue_ok(puzzle: &Puzzle, b: DistBfs) -> bool {
    &&& b.queue.no_duplicates()
    &&& b.head <= b.queue.len()
    &&& forall|p: Pos| #[trigger] b.dist.contains_key(p) <==> b.queue.contains(p)
    &&& forall|i: int| 0 <= i < b.queue.len() ==> dist_universe(puzzle).contains(#[trigger] b.queue[i])
    &&& forall|p: Pos| #[trigger] b.dist.contains_key(p) ==> b.dist[p] < b.queue.len()
}

/// What holds of the search at every round.
pub open spec fn dist_inv(puzzle: &Puzzle, b: DistBfs) -> bool {
    &&& queue_ok(puzzle, b)
    &&& forall|i: int, j: int| 0 <= i <= j < b.queue.len() ==> b.dist[#[trigger] b.queue[i]] <= b.dist[#[trigger] b.queue[j]]
    &&& b.head < b.queue.len() ==> forall|j: int| 0 <= j < b.queue.len() ==> b.dist[#[trigger] b.queue[j]] <= b.dist[b.queue[b.head as int]] + 1
    &&& forall|p: Pos| #[trigger] b.dist.contains_key(p) ==> within(puzzle, p, b.dist[p] as nat)
    &&& forall|i: int, p: Pos| 0 <= i < b.head && #[trigger] moves(puzzle, b.queue[i], p) ==> b.dist.contains_key(p) && b.dist[p] <= b.dist[b.queue[i]] + 1
    &&& forall|s: Pos| #[trigger] bfs_sources(puzzle).contains(s) ==> b.dist.contains_key(s) && b.dist[s] == 0
}

/// The distances are those of shortest walks: a cell has one exactly when a walk from a
/// car or caboose reaches it, and then no shorter walk does.
pub open spec fn shortest(puzzle: &Puzzle, m: Map<Pos, usize>) -> bool {
    &&& forall|p: Pos, k: nat| #[trigger] within(puzzle, p, k) ==> m.contains_key(p) && m[p] <= k
    &&& forall|p: Pos| #[trigger] m.contains_key(p) ==> within(puzzle, p, m[p] as nat)
}

proof fn lemma_push_queue(puzzle: &Puzzle, b: DistBfs, p: Pos, v: usize)
    requires
        queue_ok(puzzle, b),
        !b.dist.contains_key(p),
        dist_universe(puzzle).contains(p),
        v <= b.queue.len(),
    ensures
        queue_ok(puzzle, DistBfs { dist: b.dist.insert(p, v), queue: b.queue.push(p), ..b }),
{
    let q2 = b.queue.push(p);
    assert(!b.queue.contains(p));
    assert forall|i: int, j: int| 0 <= i < q2.len() && 0 <= j < q2.len() && i != j implies q2[i] != q2[j] by {
        if i == b.queue.len() {
            assert(b.queue[j] == q2[j]);
        } else if j == b.queue.len() {
            assert(b.queue[i] == q2[i]);
        }
    }
    assert forall|x: Pos| #[trigger] b.dist.insert(p, v).contains_key(x) <==> q2.contains(x) by {
        if x == p {
            assert(q2[b.queue.len() as int] == p);
        } else {
            if b.queue.contains(x) {
                let i = choose|i: int| 0 <= i < b.queue.len() && b.queue[i] == x;
                assert(q2[i] == x);
            }
            if q2.contains(x) {
                let i = choose|i: int| 0 <= i < q2.len() && q2[i] == x;
                assert(b.queue[i] == x);
            }
        }
    }
}

/// Seeding puts every source in the queue at distance 0.
proof fn lemma_seed(puzzle: &Puzzle, b: DistBfs, k: int)
    requires
        0 <= k <= bfs_sources(puzzle).len(),
        queue_ok(puzzle, b),
        b.head == 0,
        forall|p: Pos| #[trigger] b.dist.contains_key(p) ==> b.dist[p] == 0 && bfs_sources(puzzle).contains(p),
        forall|j: int| 0 <= j < k ==> b.dist.contains_key(#[trigger] bfs_sources(puzzle)[j]),
    ensures
        ({
            let r = seed(bfs_sources(puzzle), b, k);
            &&& queue_ok(puzzle, r)
            &&& r.head == 0
            &&& forall|p: Pos| #[trigger] r.dist.contains_key(p) ==> r.dist[p] == 0 && bfs_sources(puzzle).contains(p)
            &&& forall|j: int| 0 <= j < bfs_sources(puzzle).len() ==> r.dist.contains_key(#[trigger] bfs_sources(puzzle)[j])
        }),
    decreases bfs_sources(puzzle).len() - k,
{
    let srcs = bfs_sources(puzzle);
    if k < srcs.len() {
        let p = srcs[k];
        assert(dist_universe(puzzle)[grid_positions(puzzle.rows as nat, puzzle.cols as nat).len() + k] == p);
        assert(srcs.contains(p));
        if b.dist.contains_key(p) {
            lemma_seed(puzzle, b, k + 1);
        } else {
            let b2 = DistBfs { dist: b.dist.insert(p, 0), queue: b.queue.push(p), ..b };
            lemma_push_queue(puzzle, b, p, 0);
            lemma_seed(puzzle, b2, k + 1);
        }
    }
}

/// The neighbour of `pos` in direction `e`, if it is no wall, has a distance.
pub open spec fn neighbor_found(puzzle: &Puzzle, dist: Map<Pos, usize>, pos: Pos, e: int) -> bool {
    match neighbor(puzzle, pos, Direction::spec_all()[e]) {
        Some(p) => puzzle.cell(p) != CellKind::Wall ==> dist.contains_key(p),
        None => true,
    }
}

/// What exploring the neighbours of `pos` from direction index `d` on adds.
#[verifier::spinoff_prover]
#[verifier::rlimit(30)]
proof fn lemma_explore(puzzle: &Puzzle, b: DistBfs, pos: Pos, dv: int, d: int)
    requires
        0 <= d <= 4,
        queue_ok(puzzle, b),
        0 <= dv < b.queue.len(),
        dv + 1 <= usize::MAX,
    ensures
        ({
            let r = dist_explore(puzzle, b, pos, dv, d);
            &&& queue_ok(puzzle, r)
            &&& r.head == b.head
            &&& r.queue.len() >= b.queue.len()
            &&& forall|i: int| 0 <= i < b.queue.len() ==> r.queue[i] == #[trigger] b.queue[i]
            &&& forall|p: Pos| #[trigger] b.dist.contains_key(p) ==> r.dist.contains_key(p) && r.dist[p] == b.dist[p]
            &&& forall|i: int| b.queue.len() <= i < r.queue.len() ==> !b.dist.contains_key(#[trigger] r.queue[i])
                && r.dist[r.queue[i]] == dv + 1 && moves(puzzle, pos, r.queue[i])
            &&& forall|e: int| d <= e < 4 ==> #[trigger] neighbor_found(puzzle, r.dist, pos, e)
        }),
    decreases 4 - d,
{
    if d < 4 {
        let dir = Direction::spec_all()[d];
        match neighbor(puzzle, pos, dir) {
            Some(np) => {
                if !b.dist.contains_key(np) && puzzle.cell(np) != CellKind::Wall {
                    let b2 = DistBfs { dist: b.dist.insert(np, (dv + 1) as usize), queue: b.queue.push(np), ..b };
                    lemma_grid_positions_contains(puzzle.rows as nat, puzzle.cols as nat, np);
                    let g = grid_positions(puzzle.rows as nat, puzzle.cols as nat);
                    let gi = choose|gi: int| 0 <= gi < g.len() && g[gi] == np;
                    assert(dist_universe(puzzle)[gi] == np);
                    lemma_push_queue(puzzle, b, np, (dv + 1) as usize);
                    lemma_explore(puzzle, b2, pos, dv, d + 1);
                    let r = dist_explore(puzzle, b2, pos, dv, d + 1);
                    assert(moves(puzzle, pos, np));
                    assert(r.queue[b.queue.len() as int] == b2.queue[b.queue.len() as int]);
                    assert forall|i: int| 0 <= i < b.queue.len() implies r.queue[i] == #[trigger] b.queue[i] by {
                        assert(b2.queue[i] == b.queue[i]);
                    }
                    assert forall|p: Pos| #[trigger] b.dist.contains_key(p) implies r.dist.contains_key(p) && r.dist[p] == b.dist[p] by {
                        assert(p != np);
                        assert(b2.dist.contains_key(p));
                        assert(b2.dist[p] == b.dist[p]);
                    }
                    assert(b2.dist.contains_key(np));
                    assert(neighbor_found(puzzle, r.dist, pos, d));
                    assert forall|i: int| b.queue.len() <= i < r.queue.len() implies !b.dist.contains_key(#[trigger] r.queue[i])
                        && r.dist[r.queue[i]] == dv + 1 && moves(puzzle, pos, r.queue[i]) by {
                        if i == b.queue.len() {
                            assert(r.queue[i] == np);
                            assert(r.dist[np] == b2.dist[np]);
                        }
                    }
                } else {
                    lemma_explore(puzzle, b, pos, dv, d + 1);
                    let r = dist_explore(puzzle, b, pos, dv, d + 1);
                    if b.dist.contains_key(np) {
                        assert(r.dist.contains_key(np));
                    }
                    assert(neighbor_found(puzzle, r.dist, pos, d));
                }
            },
            None => {
                lemma_explore(puzzle, b, pos, dv, d + 1);
                let r = dist_explore(puzzle, b, pos, dv, d + 1);
                assert(neighbor_found(puzzle, r.dist, pos, d));
            },
        }
    }
}

/// One round keeps the invariant.
#[verifier::rlimit(40)]
proof fn lemma_step_inv(puzzle: &Puzzle, b: DistBfs)
    requires
        dist_inv(puzzle, b),
        b.head < b.queue.len(),
        dist_universe(puzzle).len() < usize::MAX,
    ensures
        dist_step(puzzle, b) matches DistState::Searching(b2) && dist_inv(puzzle, b2)
            && b2.queue.len() >= b.queue.len() && (b2.queue.len() == b.queue.len() ==> b2.head > b.head),
{
    let h = b.head as int;
    let u = b.queue[h];
    assert(b.queue.contains(u));
    assert(b.dist.contains_key(u));
    let dv = b.dist[u] as int;
    assert(within(puzzle, u, dv as nat));
    lemma_nodup_subset_len(b.queue, dist_universe(puzzle));
    let b1 = DistBfs { head: b.head + 1, ..b };
    lemma_explore(puzzle, b1, u, dv, 0);
    let r = dist_explore(puzzle, b1, u, dv, 0);
    let n = b.queue.len() as int;
    assert(dist_step(puzzle, b) == DistState::Searching(r));
    // the queue stays sorted
    assert forall|i: int, j: int| 0 <= i <= j < r.queue.len() implies r.dist[#[trigger] r.queue[i]] <= r.dist[#[trigger] r.queue[j]] by {
        if j < n {
            assert(r.queue[i] == b.queue[i] && r.queue[j] == b.queue[j]);
            assert(b.dist.contains_key(b.queue[i])) by { assert(b.queue.contains(b.queue[i])); }
            assert(b.dist.contains_key(b.queue[j])) by { assert(b.queue.contains(b.queue[j])); }
        } else if i < n {
            assert(r.queue[i] == b.queue[i]);
            assert(b.dist.contains_key(b.queue[i])) by { assert(b.queue.contains(b.queue[i])); }
            assert(b.dist[b.queue[i]] <= b.dist[b.queue[h]] + 1);
        }
    }
    // nothing in the queue is more than one step further than its front
    if r.head < r.queue.len() {
        let h2 = r.head as int;
        assert(r.dist[r.queue[h]] <= r.dist[r.queue[h2]]);
        assert(r.queue[h] == u);
        assert forall|j: int| 0 <= j < r.queue.len() implies r.dist[#[trigger] r.queue[j]] <= r.dist[r.queue[h2]] + 1 by {
            if j < n {
                assert(r.queue[j] == b.queue[j]);
                assert(b.dist.contains_key(b.queue[j])) by { assert(b.queue.contains(b.queue[j])); }
                assert(b.dist[b.queue[j]] <= b.dist[b.queue[h]] + 1);
            }
        }
    }
    // every distance is that of a walk
    assert forall|p: Pos| #[trigger] r.dist.contains_key(p) implies within(puzzle, p, r.dist[p] as nat) by {
        if !b.dist.contains_key(p) {
            assert(r.queue.contains(p));
            let i = choose|i: int| 0 <= i < r.queue.len() && r.queue[i] == p;
            if i < n {
                assert(r.queue[i] == b.queue[i]);
                assert(b.queue.contains(p));
            }
            assert(moves(puzzle, u, p));
            assert(r.dist[p] == dv + 1);
            lemma_within_step(puzzle, u, dv as nat, p);
        }
    }
    // the cells reached from the explored ones are found
    assert forall|i: int, p: Pos| 0 <= i < r.head && #[trigger] moves(puzzle, r.queue[i], p) implies r.dist.contains_key(p) && r.dist[p] <= r.dist[r.queue[i]] + 1 by {
        assert(r.queue[i] == b.queue[i]);
        assert(b.dist.contains_key(b.queue[i])) by { assert(b.queue.contains(b.queue[i])); }
        if i < h {
            assert(b.dist.contains_key(p) && b.dist[p] <= b.dist[b.queue[i]] + 1);
        } else {
            let dir = choose|dir: Direction| #[trigger] neighbor(puzzle, u, dir) == Some(p);
            let e: int = match dir {
                Direction::North => 0,
                Direction::South => 1,
                Direction::East => 2,
                Direction::West => 3,
            };
            assert(Direction::spec_all()[e] == dir);
            assert(neighbor(puzzle, u, Direction::spec_all()[e]) == Some(p));
            assert(neighbor_found(puzzle, r.dist, u, e));
            assert(r.dist.contains_key(p));
            if b.dist.contains_key(p) {
                assert(b.queue.contains(p));
                let j = choose|j: int| 0 <= j < n && b.queue[j] == p;
                assert(b.dist[b.queue[j]] <= b.dist[b.queue[h]] + 1);
            } else {
                assert(r.queue.contains(p));
                let j = choose|j: int| 0 <= j < r.queue.len() && r.queue[j] == p;
                if j < n {
                    assert(r.queue[j] == b.queue[j]);
                    assert(b.queue.contains(p));
                }
            }
        }
    }
}

/// When the queue is used up, the distances are those of shortest walks.
proof fn lemma_final(puzzle: &Puzzle, b: DistBfs)
    requires
        dist_inv(puzzle, b),
        b.head == b.queue.len(),
    ensures
        shortest(puzzle, b.dist),
{
    assert forall|p: Pos, k: nat| #[trigger] within(puzzle, p, k) implies b.dist.contains_key(p) && b.dist[p] <= k by {
        lemma_final_within(puzzle, b, p, k);
    }
}

/// Every cell found is queued, every queued cell is explored, exploring finds every
/// cell one step on, and the sources are at distance 0.
pub open spec fn search_closed(puzzle: &Puzzle, b: DistBfs) -> bool {
    &&& b.head == b.queue.len()
    &&& forall|p: Pos| #[trigger] b.dist.contains_key(p) ==> b.queue.contains(p)
    &&& forall|i: int, p: Pos| 0 <= i < b.head && #[trigger] moves(puzzle, b.queue[i], p) ==> b.dist.contains_key(p) && b.dist[p] <= b.dist[b.queue[i]] + 1
    &&& forall|s: Pos| #[trigger] bfs_sources(puzzle).contains(s) ==> b.dist.contains_key(s) && b.dist[s] == 0
}

proof fn lemma_walk_found(puzzle: &Puzzle, b: DistBfs, w: Seq<Pos>)
    requires
        search_closed(puzzle, b),
        walk(puzzle, w),
    ensures
        b.dist.contains_key(w.last()) && b.dist[w.last()] <= w.len() - 1,
    decreases w.len(),
{
    if w.len() == 1 {
        assert(bfs_sources(puzzle).contains(w.last()));
    } else {
        let w1 = w.drop_last();
        assert forall|i: int| 0 <= i < w1.len() - 1 implies moves(puzzle, #[trigger] w1[i], w1[i + 1]) by {
            assert(w1[i] == w[i] && w1[i + 1] == w[i + 1]);
            assert(moves(puzzle, w[i], w[i + 1]));
        }
        assert(walk(puzzle, w1));
        lemma_walk_found(puzzle, b, w1);
        let q = w1.last();
        assert(q == w[w.len() - 2]);
        assert(moves(puzzle, w[w.len() - 2], w[w.len() - 1]));
        assert(b.queue.contains(q));
        let i = choose|i: int| 0 <= i < b.queue.len() && b.queue[i] == q;
        assert(moves(puzzle, b.queue[i], w.last()));
    }
}

proof fn lemma_final_within(puzzle: &Puzzle, b: DistBfs, p: Pos, k: nat)
    requires
        dist_inv(puzzle, b),
        b.head == b.queue.len(),
        within(puzzle, p, k),
    ensures
        b.dist.contains_key(p) && b.dist[p] <= k,
{
    let w = choose|w: Seq<Pos>| #[trigger] walk(puzzle, w) && w.last() == p && w.len() <= k + 1;
    assert(search_closed(puzzle, b));
    lemma_walk_found(puzzle, b, w);
}

/// From a state that keeps the invariant the search finishes, with shortest distances.
proof fn lemma_dist_run(puzzle: &Puzzle, b: DistBfs) -> (k: nat)
    requires
        dist_inv(puzzle, b),
        dist_universe(puzzle).len() < usize::MAX,
    ensures
        dist_iter(puzzle, DistState::Searching(b), k) matches DistState::Finished(m) && shortest(puzzle, m),
    decreases dist_universe(puzzle).len() - b.queue.len(), b.queue.len() - b.head,
{
    lemma_nodup_subset_len(b.queue, dist_universe(puzzle));
    if b.head >= b.queue.len() {
        lemma_final(puzzle, b);
        assert(dist_iter(puzzle, DistState::Searching(b), 1) == dist_iter(puzzle, dist_step(puzzle, b), 0));
        1
    } else {
        lemma_step_inv(puzzle, b);
        let b2 = dist_step(puzzle, b)->Searching_0;
        lemma_nodup_subset_len(b2.queue, dist_universe(puzzle));
        let k2 = lemma_dist_run(puzzle, b2);
        assert(dist_iter(puzzle, DistState::Searching(b), k2 + 1) == dist_iter(puzzle, DistState::Searching(b2), k2));
        k2 + 1
    }
}

/// The distances by which the cells are ordered are the lengths of shortest walks from a
/// car or a caboose, each step to a grid neighbour that is no wall: a cell has a distance
/// exactly when such a walk reaches it, and its distance is the length of the shortest.
pub proof fn law_bfs_distances_shortest(puzzle: &Puzzle)
    requires
        dist_universe(puzzle).len() < usize::MAX,
    ensures
        shortest(puzzle, bfs_distances(puzzle)),
{
    let b0 = DistBfs { dist: Map::empty(), queue: Seq::empty(), head: 0 };
    lemma_seed(puzzle, b0, 0);
    let b = seed(bfs_sources(puzzle), b0, 0);
    assert forall|s: Pos| #[trigger] bfs_sources(puzzle).contains(s) implies b.dist.contains_key(s) && b.dist[s] == 0 by {
        let j = choose|j: int| 0 <= j < bfs_sources(puzzle).len() && bfs_sources(puzzle)[j] == s;
    }
    assert forall|p: Pos| #[trigger] b.dist.contains_key(p) implies within(puzzle, p, b.dist[p] as nat) by {
        lemma_within_source(puzzle, p);
    }
    assert forall|i: int, j: int| 0 <= i <= j < b.queue.len() implies b.dist[#[trigger] b.queue[i]] <= b.dist[#[trigger] b.queue[j]] by {
        assert(b.queue.contains(b.queue[i]));
        assert(b.queue.contains(b.queue[j]));
        assert(b.dist.contains_key(b.queue[i]));
        assert(b.dist.contains_key(b.queue[j]));
    }
    if b.head < b.queue.len() {
        assert forall|j: int| 0 <= j < b.queue.len() implies b.dist[#[trigger] b.queue[j]] <= b.dist[b.queue[b.head as int]] + 1 by {
            assert(b.queue.contains(b.queue[j]));
            assert(b.dist.contains_key(b.queue[j]));
        }
    }
    assert(dist_inv(puzzle, b));
    let k = lemma_dist_run(puzzle, b);
    let m = dist_iter(puzzle, DistState::Searching(b), k)->Finished_0;
    lemma_bfs_distances(puzzle, k, m);
}

} // verus!
