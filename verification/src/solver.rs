use vstd::prelude::*;
use crate::arrival::{law_connectivity_sound, on_placeable};
use crate::posmap::{Pos, PosMap};
use crate::order::{lemma_ordered_cells, ordered_cells, spec_ordered_cells};
use crate::puzzle::{CellKind, Puzzle};
use crate::reach::{connectivity_ok, spec_connectivity_ok};
use crate::simulation::{
    completes, law_partial_simulate_sound, partial_simulate, sim_ready, simulate, spec_partial_simulate, spec_simulate,
    SimResult,
};
use crate::types::{Direction, Inventory, SwitchConfig, TrackType};

verus! {

/// The solved placement: which track to put at each previously-empty cell.
pub type Solution = PosMap<TrackType>;

/// The inventory piece that a placed track uses.
#[derive(Clone, Copy, Debug, PartialEq, Eq, Structural)]
pub enum PieceKind {
    Straight,
    Curve,
    Crossing,
    Switch,
}

/// How many pieces of a kind the inventory holds.
pub open spec fn inv_count(inv: Inventory, kind: PieceKind) -> usize {
    match kind {
        PieceKind::Straight => inv.straight,
        PieceKind::Curve => inv.curve,
        PieceKind::Crossing => inv.crossing,
        PieceKind::Switch => inv.switch,
    }
}

/// The inventory with the count of one kind replaced.
pub open spec fn inv_with(inv: Inventory, kind: PieceKind, n: usize) -> Inventory {
    match kind {
        PieceKind::Straight => Inventory { straight: n, ..inv },
        PieceKind::Curve => Inventory { curve: n, ..inv },
        PieceKind::Crossing => Inventory { crossing: n, ..inv },
        PieceKind::Switch => Inventory { switch: n, ..inv },
    }
}

/// How many pieces of a kind the inventory holds.
pub(crate) fn count_of(inv: &Inventory, kind: PieceKind) -> (r: usize)
    ensures
        r == inv_count(*inv, kind),
{
    match kind {
        PieceKind::Straight => inv.straight,
        PieceKind::Curve => inv.curve,
        PieceKind::Crossing => inv.crossing,
        PieceKind::Switch => inv.switch,
    }
}

/// Sets the count of one kind of piece.
pub(crate) fn set_count(inv: &mut Inventory, kind: PieceKind, n: usize)
    ensures
        *final(inv) == inv_with(*old(inv), kind, n),
{
    match kind {
        PieceKind::Straight => inv.straight = n,
        PieceKind::Curve => inv.curve = n,
        PieceKind::Crossing => inv.crossing = n,
        PieceKind::Switch => inv.switch = n,
    }
}

fn decrement(inv: &mut Inventory, kind: PieceKind)
    requires
        inv_count(*old(inv), kind) > 0,
    ensures
        *final(inv) == inv_with(*old(inv), kind, (inv_count(*old(inv), kind) - 1) as usize),
{
    match kind {
        PieceKind::Straight => inv.straight = inv.straight - 1,
        PieceKind::Curve => inv.curve = inv.curve - 1,
        PieceKind::Crossing => inv.crossing = inv.crossing - 1,
        PieceKind::Switch => inv.switch = inv.switch - 1,
    }
}

fn increment(inv: &mut Inventory, kind: PieceKind)
    requires
        inv_count(*old(inv), kind) < usize::MAX,
    ensures
        *final(inv) == inv_with(*old(inv), kind, (inv_count(*old(inv), kind) + 1) as usize),
{
    match kind {
        PieceKind::Straight => inv.straight = inv.straight + 1,
        PieceKind::Curve => inv.curve = inv.curve + 1,
        PieceKind::Crossing => inv.crossing = inv.crossing + 1,
        PieceKind::Switch => inv.switch = inv.switch + 1,
    }
}

/// Taking a piece out of the inventory and putting it back leaves the inventory as it was.
pub proof fn law_take_and_return_piece(inv: Inventory, kind: PieceKind)
    requires
        inv_count(inv, kind) > 0,
    ensures
        ({
            let taken = inv_with(inv, kind, (inv_count(inv, kind) - 1) as usize);
            inv_with(taken, kind, (inv_count(taken, kind) + 1) as usize) == inv
        }),
{
}

/// A candidate for a cell: leave it empty, or place a track of a piece kind.
pub type Candidate = Option<(TrackType, PieceKind)>;

pub open spec fn tagged(ts: Seq<TrackType>, kind: PieceKind) -> Seq<Candidate> {
    ts.map_values(|t: TrackType| Some((t, kind)))
}

pub open spec fn kind_candidates(inv: Inventory, kind: PieceKind, ts: Seq<TrackType>) -> Seq<Candidate> {
    if inv_count(inv, kind) > 0 { tagged(ts, kind) } else { Seq::empty() }
}

/// "Leave empty" first, then every orientation of each piece kind still in the inventory.
pub open spec fn spec_candidates(inv: Inventory) -> Seq<Candidate> {
    seq![None]
        + kind_candidates(inv, PieceKind::Straight, TrackType::spec_straight_orientations())
        + kind_candidates(inv, PieceKind::Curve, TrackType::spec_curve_orientations())
        + kind_candidates(inv, PieceKind::Crossing, TrackType::spec_crossing_orientations())
        + kind_candidates(inv, PieceKind::Switch, TrackType::spec_switch_orientations())
}

fn push_tagged(v: &mut Vec<Candidate>, ts: &[TrackType], kind: PieceKind)
    ensures
        final(v)@ == old(v)@ + tagged(ts@, kind),
{
    let mut i: usize = 0;
    while i < ts.len()
        invariant
            i <= ts@.len(),
            v@ == old(v)@ + tagged(ts@.take(i as int), kind),
        decreases ts@.len() - i,
    {
        v.push(Some((ts[i], kind)));
        assert(tagged(ts@.take(i + 1), kind) == tagged(ts@.take(i as int), kind).push(Some((ts@[i as int], kind))));
        i = i + 1;
    }
    assert(ts@.take(ts@.len() as int) == ts@);
}

/// The candidates to try for a cell, given what remains of the inventory.
fn build_candidates(inv: &Inventory) -> (r: Vec<Candidate>)
    ensures
        r@ == spec_candidates(*inv),
        r@.len() <= 16,
{
    let mut v: Vec<Candidate> = Vec::new();
    v.push(None);
    if inv.straight > 0 {
        push_tagged(&mut v, TrackType::straight_orientations(), PieceKind::Straight);
    }
    if inv.curve > 0 {
        push_tagged(&mut v, TrackType::curve_orientations(), PieceKind::Curve);
    }
    if inv.crossing > 0 {
        push_tagged(&mut v, TrackType::crossing_orientations(), PieceKind::Crossing);
    }
    if inv.switch > 0 {
        let sw = TrackType::switch_orientations();
        push_tagged(&mut v, sw.as_slice(), PieceKind::Switch);
    }
    assert(v@ == spec_candidates(*inv));
    v
}

/// Whether a track piece has an opening on `entry_side`.
pub open spec fn connects(track: TrackType, entry_side: Direction) -> bool {
    track.spec_open_sides().contains(entry_side)
}

/// Check if a track piece has an opening on `entry_side` (a train can enter from that side).
pub(crate) fn track_connects_from(track: &TrackType, entry_side: Direction) -> (r: bool)
    ensures
        r == connects(*track, entry_side),
{
    let sides = track.open_sides();
    let mut i: usize = 0;
    while i < sides.len()
        invariant
            i <= sides@.len(),
            sides@ == track.spec_open_sides(),
            forall|j: int| 0 <= j < i ==> sides@[j] != entry_side,
        decreases sides@.len() - i,
    {
        if sides[i] == entry_side {
            return true;
        }
        i = i + 1;
    }
    false
}


// ── Search ──────────────────────────────────────────────────────────────────

/// The checks a placement passes before the search goes deeper: the partial simulation
/// finds no dead end, and every car can still reach a caboose of its color.
pub open spec fn promising(puzzle: &Puzzle, pl: Map<Pos, TrackType>) -> bool {
    spec_partial_simulate(puzzle, pl) && spec_connectivity_ok(puzzle, pl)
}

/// The first solution that the depth-first search over `cells[idx..]` finds from the
/// inventory `inv` and the placements `pl`, with the inventory left then.
pub open spec fn dfs_spec(puzzle: &Puzzle, cells: Seq<Pos>, idx: int, inv: Inventory, pl: Map<Pos, TrackType>) -> Option<(Map<Pos, TrackType>, Inventory)>
    decreases cells.len() - idx, 17int,
{
    if idx < 0 || idx >= cells.len() {
        if spec_simulate(puzzle, pl) == SimResult::Win {
            Some((pl, inv))
        } else {
            None
        }
    } else {
        try_candidates(puzzle, cells, idx, inv, pl, 0)
    }
}

/// The search at cell `cells[idx]`, trying the candidates from index `j` on: a placement
/// is followed only when it is `promising`.
pub open spec fn try_candidates(
    puzzle: &Puzzle,
    cells: Seq<Pos>,
    idx: int,
    inv: Inventory,
    pl: Map<Pos, TrackType>,
    j: int,
) -> Option<(Map<Pos, TrackType>, Inventory)>
    decreases cells.len() - idx, 16 - j,
{
    let cands = spec_candidates(inv);
    if idx < 0 || idx >= cells.len() || j < 0 || j >= cands.len() || j >= 16 {
        None
    } else {
        match cands[j] {
            None => match dfs_spec(puzzle, cells, idx + 1, inv, pl) {
                Some(r) => Some(r),
                None => try_candidates(puzzle, cells, idx, inv, pl, j + 1),
            },
            Some((t, kind)) => {
                let pl2 = pl.insert(cells[idx], t);
                let inv2 = inv_with(inv, kind, (inv_count(inv, kind) - 1) as usize);
                if promising(puzzle, pl2) {
                    match dfs_spec(puzzle, cells, idx + 1, inv2, pl2) {
                        Some(r) => Some(r),
                        None => try_candidates(puzzle, cells, idx, inv, pl, j + 1),
                    }
                } else {
                    try_candidates(puzzle, cells, idx, inv, pl, j + 1)
                }
            },
        }
    }
}

/// A candidate placement names a piece kind that the inventory still holds.
proof fn lemma_candidate_in_stock(inv: Inventory, j: int)
    requires
        0 <= j < spec_candidates(inv).len(),
    ensures
        spec_candidates(inv)[j] matches Some((t, kind)) ==> inv_count(inv, kind) > 0 && kind_of(t) == kind && is_piece(t),
{
    let c = spec_candidates(inv);
    let s1 = kind_candidates(inv, PieceKind::Straight, TrackType::spec_straight_orientations());
    let s2 = kind_candidates(inv, PieceKind::Curve, TrackType::spec_curve_orientations());
    let s3 = kind_candidates(inv, PieceKind::Crossing, TrackType::spec_crossing_orientations());
    let s4 = kind_candidates(inv, PieceKind::Switch, TrackType::spec_switch_orientations());
    assert(c == seq![None] + s1 + s2 + s3 + s4);
    if j == 0 {
    } else if j < 1 + s1.len() {
        assert(c[j] == s1[j - 1]);
    } else if j < 1 + s1.len() + s2.len() {
        assert(c[j] == s2[j - 1 - s1.len()]);
    } else if j < 1 + s1.len() + s2.len() + s3.len() {
        assert(c[j] == s3[j - 1 - s1.len() - s2.len()]);
    } else {
        let k = j - 1 - s1.len() - s2.len() - s3.len();
        assert(c[j] == s4[k]);
        crate::laws::law_switch_configs_complete();
        assert(SwitchConfig::spec_all()[k].is_valid());
    }
}

/// The inventory piece kind of a track type.
pub open spec fn kind_of(t: TrackType) -> PieceKind {
    match t {
        TrackType::StraightH | TrackType::StraightV => PieceKind::Straight,
        TrackType::CurveNE | TrackType::CurveNW | TrackType::CurveSE | TrackType::CurveSW => PieceKind::Curve,
        TrackType::Crossing => PieceKind::Crossing,
        TrackType::Switch(_) => PieceKind::Switch,
    }
}

/// No cell from index `idx` on is placed in `pl`, and those cells are distinct.
pub open spec fn fresh_cells(cells: Seq<Pos>, idx: int, pl: Map<Pos, TrackType>) -> bool {
    &&& forall|k: int| idx <= k < cells.len() ==> !pl.contains_key(#[trigger] cells[k])
    &&& forall|a: int, b: int| idx <= a < cells.len() && idx <= b < cells.len() && a != b ==> cells[a] != cells[b]
}

/// Depth-first search over the ordered cells: at each cell try leaving it empty, then each
/// available piece in each orientation, dropping a placement that the partial simulation
/// or the connectivity check rejects; a complete assignment wins if the full simulation does.
fn dfs(puzzle: &Puzzle, cells: &[Pos], idx: usize, inv: &mut Inventory, placements: &mut Solution) -> (r: bool)
    requires
        sim_ready(puzzle),
        idx <= cells@.len(),
        fresh_cells(cells@, idx as int, old(placements)@),
    ensures
        r == dfs_spec(puzzle, cells@, idx as int, *old(inv), old(placements)@) is Some,
        r ==> dfs_spec(puzzle, cells@, idx as int, *old(inv), old(placements)@) == Some((final(placements)@, *final(inv))),
        r ==> search_result_ok(puzzle, cells@, idx as int, *old(inv), old(placements)@, final(placements)@, *final(inv)),
        !r ==> final(placements)@ == old(placements)@ && *final(inv) == *old(inv),
    decreases cells@.len() - idx,
{
    proof {
        lemma_dfs_result(puzzle, cells@, idx as int, *inv, placements@);
    }
    if idx == cells.len() {
        return simulate(puzzle, placements) == SimResult::Win;
    }
    let pos = cells[idx];
    let candidates = build_candidates(inv);
    let ghost inv0 = *inv;
    let ghost pl0 = placements@;
    let n = cells.len();
    let mut j: usize = 0;
    while j < candidates.len()
        invariant
            sim_ready(puzzle),
            n == cells@.len(),
            idx < cells@.len(),
            pos == cells@[idx as int],
            fresh_cells(cells@, idx as int, pl0),
            candidates@ == spec_candidates(inv0),
            candidates@.len() <= 16,
            j <= candidates@.len(),
            *inv == inv0,
            placements@ == pl0,
            inv0 == *old(inv),
            pl0 == old(placements)@,
            dfs_spec(puzzle, cells@, idx as int, inv0, pl0) == try_candidates(puzzle, cells@, idx as int, inv0, pl0, j as int),
            dfs_spec(puzzle, cells@, idx as int, inv0, pl0) matches Some((m, f)) ==> search_result_ok(puzzle, cells@, idx as int, inv0, pl0, m, f),
        decreases candidates@.len() - j,
    {
        match candidates[j] {
            None => {
                if dfs(puzzle, cells, idx + 1, inv, placements) {
                    return true;
                }
            },
            Some((track, kind)) => {
                proof {
                    lemma_candidate_in_stock(inv0, j as int);
                }
                placements.insert(pos, track);
                decrement(inv, kind);
                let ghost pl2 = placements@;
                let ghost inv2 = *inv;
                proof {
                    assert forall|k: int| idx + 1 <= k < cells@.len() implies !pl2.contains_key(#[trigger] cells@[k]) by {
                        assert(cells@[k] != cells@[idx as int]);
                    }
                }
                if partial_simulate(puzzle, placements) && connectivity_ok(puzzle, placements) {
                    if dfs(puzzle, cells, idx + 1, inv, placements) {
                        return true;
                    }
                }
                placements.remove(pos);
                increment(inv, kind);
                proof {
                    assert(placements@ =~= pl0);
                    assert(*inv == inv0);
                }
            },
        }
        j = j + 1;
    }
    false
}

/// Find a track placement that solves the puzzle: the first one that the search finds,
/// or `None` exactly when the puzzle has no solution.
pub fn solve(puzzle: &Puzzle) -> (r: Option<Solution>)
    requires
        sim_ready(puzzle),
    ensures
        r matches Some(s) ==> spec_solve(puzzle) == Some(s@) && is_solution(puzzle, s@),
        r is None ==> spec_solve(puzzle) is None && forall|s: Map<Pos, TrackType>| !#[trigger] is_solution(puzzle, s),
{
    let cells = ordered_cells(puzzle);
    let mut placements: Solution = PosMap::new();
    let mut inv = puzzle.inventory;
    proof {
        lemma_ordered_cells(puzzle);
        law_solution_sound(puzzle);
        if spec_solve(puzzle) is None {
            assert forall|s: Map<Pos, TrackType>| !#[trigger] is_solution(puzzle, s) by {
                if is_solution(puzzle, s) {
                    law_search_complete(puzzle, s);
                }
            }
        }
    }
    if dfs(puzzle, cells.as_slice(), 0, &mut inv, &mut placements) {
        Some(placements)
    } else {
        None
    }
}

/// A solution of the puzzle: pieces only on placeable cells and no switch laid out
/// otherwise than a switch, no more pieces of a kind than the inventory holds, and over
/// the fixed track and these pieces every train group reaches its caboose.
pub open spec fn is_solution(puzzle: &Puzzle, s: Map<Pos, TrackType>) -> bool {
    &&& forall|p: Pos| #[trigger] s.contains_key(p) ==> puzzle.spec_placeable_cells().contains(p) && is_piece(s[p])
    &&& forall|kind: PieceKind| #[trigger] piece_count(s, kind) <= inv_count(puzzle.inventory, kind)
    &&& spec_simulate(puzzle, s) == SimResult::Win
}

/// The placements that the search finds for a puzzle, if any.
pub open spec fn spec_solve(puzzle: &Puzzle) -> Option<Map<Pos, TrackType>> {
    match dfs_spec(puzzle, spec_ordered_cells(puzzle), 0, puzzle.inventory, Map::empty()) {
        Some((m, _)) => Some(m),
        None => None,
    }
}


// ── What the search promises ────────────────────────────────────────────────

/// The number of cells from index `i` on that `m` fills with a piece of kind `kind`.
pub open spec fn placed_count(m: Map<Pos, TrackType>, cells: Seq<Pos>, i: int, kind: PieceKind) -> nat
    decreases cells.len() - i,
{
    if i < 0 || i >= cells.len() {
        0
    } else {
        (if m.contains_key(cells[i]) && kind_of(m[cells[i]]) == kind { 1nat } else { 0nat })
            + placed_count(m, cells, i + 1, kind)
    }
}

/// The number of pieces of kind `kind` in a placement.
pub open spec fn piece_count(m: Map<Pos, TrackType>, kind: PieceKind) -> nat {
    m.dom().filter(|p: Pos| kind_of(m[p]) == kind).len()
}

/// The cells from index `i` on that `m` fills with a piece of kind `kind`.
pub open spec fn kind_cells(m: Map<Pos, TrackType>, cells: Seq<Pos>, i: int, kind: PieceKind) -> Set<Pos> {
    Set::new(|p: Pos| m.contains_key(p) && kind_of(m[p]) == kind && exists|k: int| i <= k < cells.len() && cells[k] == p)
}

proof fn lemma_kind_cells(m: Map<Pos, TrackType>, cells: Seq<Pos>, i: int, kind: PieceKind)
    requires
        0 <= i <= cells.len(),
        cells.no_duplicates(),
    ensures
        kind_cells(m, cells, i, kind).finite(),
        kind_cells(m, cells, i, kind).len() == placed_count(m, cells, i, kind),
    decreases cells.len() - i,
{
    let a = kind_cells(m, cells, i, kind);
    if i == cells.len() {
        assert(a =~= Set::empty());
    } else {
        lemma_kind_cells(m, cells, i + 1, kind);
        let b = kind_cells(m, cells, i + 1, kind);
        let c = cells[i];
        assert(!b.contains(c)) by {
            if b.contains(c) {
                let k = choose|k: int| i + 1 <= k < cells.len() && cells[k] == c;
            }
        }
        if m.contains_key(c) && kind_of(m[c]) == kind {
            assert forall|p: Pos| a.contains(p) <==> b.insert(c).contains(p) by {
                if a.contains(p) && p != c {
                    let k = choose|k: int| i <= k < cells.len() && cells[k] == p;
                    assert(k != i);
                }
            }
            assert(a =~= b.insert(c));
        } else {
            assert forall|p: Pos| a.contains(p) <==> b.contains(p) by {
                if a.contains(p) {
                    let k = choose|k: int| i <= k < cells.len() && cells[k] == p;
                    assert(k != i);
                }
            }
            assert(a =~= b);
        }
    }
}

/// When every piece of `m` stands on one of `cells`, counting over the cells counts the
/// pieces of the placement.
proof fn lemma_piece_count(m: Map<Pos, TrackType>, cells: Seq<Pos>, kind: PieceKind)
    requires
        cells.no_duplicates(),
        forall|p: Pos| #[trigger] m.contains_key(p) ==> cells.contains(p),
    ensures
        piece_count(m, kind) == placed_count(m, cells, 0, kind),
{
    lemma_kind_cells(m, cells, 0, kind);
    let f = |p: Pos| kind_of(m[p]) == kind;
    assert forall|p: Pos| m.dom().filter(f).contains(p) <==> kind_cells(m, cells, 0, kind).contains(p) by {
        if m.dom().filter(f).contains(p) {
            assert(cells.contains(p));
        }
    }
    assert(m.dom().filter(f) =~= kind_cells(m, cells, 0, kind));
}

/// What a search result owes: it wins, it adds pieces only at `cells[idx..]`, it keeps the
/// placements it started from, the pieces it adds are exactly those taken from the
/// inventory, and the search can build it.
pub open spec fn search_result_ok(
    puzzle: &Puzzle,
    cells: Seq<Pos>,
    idx: int,
    inv: Inventory,
    pl: Map<Pos, TrackType>,
    m: Map<Pos, TrackType>,
    inv_f: Inventory,
) -> bool {
    &&& spec_simulate(puzzle, m) == SimResult::Win
    &&& forall|p: Pos| #[trigger] m.contains_key(p) ==> pl.contains_key(p) || exists|i: int| idx <= i < cells.len() && cells[i] == p
    &&& forall|p: Pos| #[trigger] pl.contains_key(p) ==> m.contains_key(p) && m[p] == pl[p]
    &&& forall|kind: PieceKind| inv_count(inv, kind) == inv_count(inv_f, kind) + #[trigger] placed_count(m, cells, idx, kind)
    &&& reachable_by_search(puzzle, cells, idx, inv, pl, m)
}

proof fn lemma_dfs_result(puzzle: &Puzzle, cells: Seq<Pos>, idx: int, inv: Inventory, pl: Map<Pos, TrackType>)
    requires
        0 <= idx <= cells.len(),
        fresh_cells(cells, idx, pl),
    ensures
        dfs_spec(puzzle, cells, idx, inv, pl) matches Some((m, inv_f)) ==> search_result_ok(puzzle, cells, idx, inv, pl, m, inv_f),
    decreases cells.len() - idx, 17int,
{
    if idx < cells.len() {
        lemma_try_result(puzzle, cells, idx, inv, pl, 0);
    } else {
        assert forall|kind: PieceKind| inv_count(inv, kind) == inv_count(inv, kind) + #[trigger] placed_count(pl, cells, idx, kind) by {}
    }
}

proof fn lemma_try_result(puzzle: &Puzzle, cells: Seq<Pos>, idx: int, inv: Inventory, pl: Map<Pos, TrackType>, j: int)
    requires
        0 <= idx < cells.len(),
        0 <= j,
        fresh_cells(cells, idx, pl),
    ensures
        try_candidates(puzzle, cells, idx, inv, pl, j) matches Some((m, inv_f)) ==> search_result_ok(puzzle, cells, idx, inv, pl, m, inv_f),
    decreases cells.len() - idx, 16 - j,
{
    let cands = spec_candidates(inv);
    if j < cands.len() && j < 16 {
        lemma_try_result(puzzle, cells, idx, inv, pl, j + 1);
        lemma_candidate_in_stock(inv, j);
        let c = cells[idx];
        match cands[j] {
            None => {
                lemma_dfs_result(puzzle, cells, idx + 1, inv, pl);
                if let Some((m, inv_f)) = dfs_spec(puzzle, cells, idx + 1, inv, pl) {
                    assert(!m.contains_key(c)) by {
                        if m.contains_key(c) {
                            if !pl.contains_key(c) {
                                let i = choose|i: int| idx + 1 <= i < cells.len() && cells[i] == c;
                            }
                        }
                    }
                    assert forall|p: Pos| #[trigger] m.contains_key(p) implies pl.contains_key(p) || exists|i: int| idx <= i < cells.len() && cells[i] == p by {
                        if !pl.contains_key(p) {
                            let i = choose|i: int| idx + 1 <= i < cells.len() && cells[i] == p;
                        }
                    }
                    assert forall|kind: PieceKind| inv_count(inv, kind) == inv_count(inv_f, kind) + #[trigger] placed_count(m, cells, idx, kind) by {
                        assert(placed_count(m, cells, idx, kind) == placed_count(m, cells, idx + 1, kind));
                    }
                }
            },
            Some((t, kind)) => {
                let pl2 = pl.insert(c, t);
                let inv2 = inv_with(inv, kind, (inv_count(inv, kind) - 1) as usize);
                assert forall|k: int| idx + 1 <= k < cells.len() implies !pl2.contains_key(#[trigger] cells[k]) by {
                    assert(cells[k] != cells[idx]);
                }
                lemma_dfs_result(puzzle, cells, idx + 1, inv2, pl2);
                if promising(puzzle, pl2) {
                    if let Some((m, inv_f)) = dfs_spec(puzzle, cells, idx + 1, inv2, pl2) {
                        assert(pl2.contains_key(c));
                        assert(m.contains_key(c) && m[c] == t);
                        assert forall|p: Pos| #[trigger] m.contains_key(p) implies pl.contains_key(p) || exists|i: int| idx <= i < cells.len() && cells[i] == p by {
                            if !pl2.contains_key(p) {
                                let i = choose|i: int| idx + 1 <= i < cells.len() && cells[i] == p;
                            } else if p == c {
                                assert(cells[idx] == p);
                            }
                        }
                        assert forall|p: Pos| #[trigger] pl.contains_key(p) implies m.contains_key(p) && m[p] == pl[p] by {
                            assert(pl2.contains_key(p));
                            assert(p != c);
                        }
                        assert forall|k2: PieceKind| inv_count(inv, k2) == inv_count(inv_f, k2) + #[trigger] placed_count(m, cells, idx, k2) by {
                            assert(placed_count(m, cells, idx, k2) == (if kind_of(t) == k2 { 1nat } else { 0nat }) + placed_count(m, cells, idx + 1, k2));
                            assert(inv_count(inv2, k2) == inv_count(inv_f, k2) + placed_count(m, cells, idx + 1, k2));
                        }
                    }
                }
            },
        }
    }
}

proof fn lemma_reachable_pieces(
    puzzle: &Puzzle,
    cells: Seq<Pos>,
    idx: int,
    inv: Inventory,
    pl: Map<Pos, TrackType>,
    m: Map<Pos, TrackType>,
)
    requires
        0 <= idx,
        reachable_by_search(puzzle, cells, idx, inv, pl, m),
        forall|p: Pos| #[trigger] pl.contains_key(p) ==> is_piece(pl[p]),
    ensures
        forall|p: Pos| #[trigger] m.contains_key(p) ==> is_piece(m[p]),
    decreases cells.len() - idx,
{
    if idx < cells.len() {
        let c = cells[idx];
        if !m.contains_key(c) {
            lemma_reachable_pieces(puzzle, cells, idx + 1, inv, pl, m);
        } else {
            let t = m[c];
            let kind = kind_of(t);
            let pl2 = pl.insert(c, t);
            assert forall|p: Pos| #[trigger] pl2.contains_key(p) implies is_piece(pl2[p]) by {
                if p != c {
                    assert(pl.contains_key(p));
                }
            }
            lemma_reachable_pieces(puzzle, cells, idx + 1, inv_with(inv, kind, (inv_count(inv, kind) - 1) as usize), pl2, m);
        }
    }
}

/// The search's answer solves the puzzle: run over the fixed track and the returned
/// placements, every train group reaches its caboose. Pieces go only on placeable cells,
/// no more pieces of a kind are placed than the inventory holds, and the answer is a
/// placement that the search can build.
pub proof fn law_solution_sound(puzzle: &Puzzle)
    requires
        puzzle.wf(),
    ensures
        spec_solve(puzzle) matches Some(m) ==> {
            &&& spec_simulate(puzzle, m) == SimResult::Win
            &&& forall|p: Pos| #[trigger] m.contains_key(p) ==> puzzle.spec_placeable_cells().contains(p)
            &&& forall|kind: PieceKind| #[trigger] piece_count(m, kind) <= inv_count(puzzle.inventory, kind)
            &&& reachable_by_search(puzzle, spec_ordered_cells(puzzle), 0, puzzle.inventory, Map::empty(), m)
            &&& is_solution(puzzle, m)
        },
{
    let cells = spec_ordered_cells(puzzle);
    lemma_ordered_cells(puzzle);
    lemma_dfs_result(puzzle, cells, 0, puzzle.inventory, Map::empty());
    if let Some((m, inv_f)) = dfs_spec(puzzle, cells, 0, puzzle.inventory, Map::empty()) {
        lemma_reachable_pieces(puzzle, cells, 0, puzzle.inventory, Map::empty(), m);
        assert forall|p: Pos| #[trigger] m.contains_key(p) implies puzzle.spec_placeable_cells().contains(p) by {
            let i = choose|i: int| 0 <= i < cells.len() && cells[i] == p;
            assert(cells.contains(p));
        }
        assert forall|kind: PieceKind| #[trigger] piece_count(m, kind) <= inv_count(puzzle.inventory, kind) by {
            assert(inv_count(puzzle.inventory, kind) == inv_count(inv_f, kind) + placed_count(m, cells, 0, kind));
            assert forall|p: Pos| #[trigger] m.contains_key(p) implies cells.contains(p) by {
                let i = choose|i: int| 0 <= i < cells.len() && cells[i] == p;
            }
            lemma_piece_count(m, cells, kind);
        }
    }
}


// ── What the search does not miss ───────────────────────────────────────────

/// A piece the solver can put down: any piece but a switch whose sides are not laid out as
/// a switch's are.
pub open spec fn is_piece(t: TrackType) -> bool {
    t is Switch ==> t->Switch_0.is_valid()
}

/// Whether the search, at cell `cells[idx]` with inventory `inv` and placements `pl`, can
/// arrive at the complete placement `m`: cell by cell, `m` either leaves the cell empty or
/// puts there a piece that the inventory still holds and after which the placements are
/// still `promising`; at the end the placements are `m`.
pub open spec fn reachable_by_search(
    puzzle: &Puzzle,
    cells: Seq<Pos>,
    idx: int,
    inv: Inventory,
    pl: Map<Pos, TrackType>,
    m: Map<Pos, TrackType>,
) -> bool
    decreases cells.len() - idx,
{
    if idx < 0 || idx >= cells.len() {
        m == pl
    } else {
        let c = cells[idx];
        if !m.contains_key(c) {
            reachable_by_search(puzzle, cells, idx + 1, inv, pl, m)
        } else {
            let t = m[c];
            let kind = kind_of(t);
            let pl2 = pl.insert(c, t);
            &&& is_piece(t)
            &&& inv_count(inv, kind) > 0
            &&& promising(puzzle, pl2)
            &&& reachable_by_search(
                puzzle,
                cells,
                idx + 1,
                inv_with(inv, kind, (inv_count(inv, kind) - 1) as usize),
                pl2,
                m,
            )
        }
    }
}

proof fn lemma_candidates_len(inv: Inventory)
    ensures
        1 <= spec_candidates(inv).len() <= 16,
        spec_candidates(inv)[0] is None,
{
    assert(SwitchConfig::spec_all().len() == 8);
    assert(TrackType::spec_switch_orientations().len() == 8);
}

/// Where a piece stands among the candidates for a cell.
proof fn lemma_candidate_index(inv: Inventory, t: TrackType) -> (j: int)
    requires
        is_piece(t),
        inv_count(inv, kind_of(t)) > 0,
    ensures
        0 <= j < spec_candidates(inv).len(),
        spec_candidates(inv)[j] == Some((t, kind_of(t))),
{
    let c = spec_candidates(inv);
    let s1 = kind_candidates(inv, PieceKind::Straight, TrackType::spec_straight_orientations());
    let s2 = kind_candidates(inv, PieceKind::Curve, TrackType::spec_curve_orientations());
    let s3 = kind_candidates(inv, PieceKind::Crossing, TrackType::spec_crossing_orientations());
    let s4 = kind_candidates(inv, PieceKind::Switch, TrackType::spec_switch_orientations());
    assert(c == seq![None] + s1 + s2 + s3 + s4);
    let o1: int = 1 + s1.len() as int;
    let o2: int = o1 + s2.len() as int;
    let o3: int = o2 + s3.len() as int;
    let j: int = match t {
        TrackType::StraightH => 1,
        TrackType::StraightV => 2,
        TrackType::CurveNE => o1,
        TrackType::CurveNW => o1 + 1,
        TrackType::CurveSE => o1 + 2,
        TrackType::CurveSW => o1 + 3,
        TrackType::Crossing => o2,
        TrackType::Switch(cfg) => {
            crate::laws::law_switch_configs_complete();
            assert(SwitchConfig::spec_all().contains(cfg));
            let i = choose|i: int| 0 <= i < SwitchConfig::spec_all().len() && SwitchConfig::spec_all()[i] == cfg;
            assert(TrackType::spec_switch_orientations()[i] == t);
            assert(s4[i] == Some((t, PieceKind::Switch)));
            o3 + i
        },
    };
    match t {
        TrackType::StraightH | TrackType::StraightV => {
            assert(c[j] == s1[j - 1]);
        },
        TrackType::CurveNE | TrackType::CurveNW | TrackType::CurveSE | TrackType::CurveSW => {
            assert(c[j] == s2[j - o1]);
        },
        TrackType::Crossing => {
            assert(c[j] == s3[j - o2]);
        },
        TrackType::Switch(_) => {
            assert(c[j] == s4[j - o3]);
        },
    }
    j
}

/// When the candidates from index `j0` on all fail, so does candidate `j`.
proof fn lemma_try_none(puzzle: &Puzzle, cells: Seq<Pos>, idx: int, inv: Inventory, pl: Map<Pos, TrackType>, j0: int, j: int)
    requires
        0 <= idx < cells.len(),
        0 <= j0 <= j < spec_candidates(inv).len(),
        try_candidates(puzzle, cells, idx, inv, pl, j0) is None,
    ensures
        match spec_candidates(inv)[j] {
            None => dfs_spec(puzzle, cells, idx + 1, inv, pl) is None,
            Some((t, kind)) => {
                let pl2 = pl.insert(cells[idx], t);
                promising(puzzle, pl2) ==> dfs_spec(
                    puzzle,
                    cells,
                    idx + 1,
                    inv_with(inv, kind, (inv_count(inv, kind) - 1) as usize),
                    pl2,
                ) is None
            },
        },
    decreases j - j0,
{
    lemma_candidates_len(inv);
    if j0 < j {
        lemma_try_none(puzzle, cells, idx, inv, pl, j0 + 1, j);
    }
}

proof fn lemma_dfs_complete(
    puzzle: &Puzzle,
    cells: Seq<Pos>,
    idx: int,
    inv: Inventory,
    pl: Map<Pos, TrackType>,
    m: Map<Pos, TrackType>,
)
    requires
        0 <= idx <= cells.len(),
        dfs_spec(puzzle, cells, idx, inv, pl) is None,
        reachable_by_search(puzzle, cells, idx, inv, pl, m),
    ensures
        spec_simulate(puzzle, m) != SimResult::Win,
    decreases cells.len() - idx,
{
    if idx < cells.len() {
        let c = cells[idx];
        lemma_candidates_len(inv);
        if !m.contains_key(c) {
            lemma_try_none(puzzle, cells, idx, inv, pl, 0, 0);
            lemma_dfs_complete(puzzle, cells, idx + 1, inv, pl, m);
        } else {
            let t = m[c];
            let kind = kind_of(t);
            let j = lemma_candidate_index(inv, t);
            lemma_try_none(puzzle, cells, idx, inv, pl, 0, j);
            lemma_dfs_complete(
                puzzle,
                cells,
                idx + 1,
                inv_with(inv, kind, (inv_count(inv, kind) - 1) as usize),
                pl.insert(c, t),
                m,
            );
        }
    }
}

/// `pl` holds the pieces of `s` on the cells before index `idx`, and nothing else.
pub open spec fn agrees_before(s: Map<Pos, TrackType>, pl: Map<Pos, TrackType>, cells: Seq<Pos>, idx: int) -> bool {
    &&& forall|p: Pos| #[trigger] pl.contains_key(p) ==> s.contains_key(p) && s[p] == pl[p]
    &&& forall|p: Pos| #[trigger] s.contains_key(p) && !pl.contains_key(p) ==> exists|k: int| idx <= k < cells.len() && cells[k] == p
    &&& forall|k: int| idx <= k < cells.len() ==> !pl.contains_key(#[trigger] cells[k])
}

/// A winning placement within the inventory is one that the search can build.
proof fn lemma_winner_reachable(
    puzzle: &Puzzle,
    cells: Seq<Pos>,
    idx: int,
    inv: Inventory,
    pl: Map<Pos, TrackType>,
    s: Map<Pos, TrackType>,
)
    requires
        0 <= idx <= cells.len(),
        cells.no_duplicates(),
        forall|k: int| 0 <= k < cells.len() ==> puzzle.cell(#[trigger] cells[k]) == CellKind::Placeable,
        forall|p: Pos| #[trigger] s.contains_key(p) ==> is_piece(s[p]),
        on_placeable(puzzle, s),
        forall|kind: PieceKind| #[trigger] placed_count(s, cells, idx, kind) <= inv_count(inv, kind),
        agrees_before(s, pl, cells, idx),
        spec_simulate(puzzle, s) == SimResult::Win,
    ensures
        reachable_by_search(puzzle, cells, idx, inv, pl, s),
    decreases cells.len() - idx,
{
    if idx == cells.len() {
        assert forall|p: Pos| #[trigger] s.contains_key(p) implies pl.contains_key(p) by {
            if !pl.contains_key(p) {
                let k = choose|k: int| idx <= k < cells.len() && cells[k] == p;
            }
        }
        assert(s =~= pl);
    } else {
        let c = cells[idx];
        if !s.contains_key(c) {
            assert forall|p: Pos| #[trigger] s.contains_key(p) && !pl.contains_key(p) implies exists|k: int| idx + 1 <= k < cells.len() && cells[k] == p by {
                let k = choose|k: int| idx <= k < cells.len() && cells[k] == p;
                assert(k != idx);
            }
            assert forall|kind: PieceKind| #[trigger] placed_count(s, cells, idx + 1, kind) <= inv_count(inv, kind) by {
                assert(placed_count(s, cells, idx, kind) == placed_count(s, cells, idx + 1, kind));
            }
            lemma_winner_reachable(puzzle, cells, idx + 1, inv, pl, s);
        } else {
            let t = s[c];
            let kind = kind_of(t);
            let pl2 = pl.insert(c, t);
            let inv2 = inv_with(inv, kind, (inv_count(inv, kind) - 1) as usize);
            assert(placed_count(s, cells, idx, kind) == 1 + placed_count(s, cells, idx + 1, kind));
            assert(completes(puzzle, pl2, s)) by {
                assert forall|p: Pos| #[trigger] s.contains_key(p) && !pl2.contains_key(p) implies puzzle.cell(p) == CellKind::Placeable by {
                    let k = choose|k: int| idx <= k < cells.len() && cells[k] == p;
                }
            }
            law_partial_simulate_sound(puzzle, pl2, s);
            law_connectivity_sound(puzzle, pl2, s);
            assert forall|p: Pos| #[trigger] s.contains_key(p) && !pl2.contains_key(p) implies exists|k: int| idx + 1 <= k < cells.len() && cells[k] == p by {
                let k = choose|k: int| idx <= k < cells.len() && cells[k] == p;
                assert(k != idx);
            }
            assert forall|k: int| idx + 1 <= k < cells.len() implies !pl2.contains_key(#[trigger] cells[k]) by {
                assert(cells[k] != cells[idx]);
            }
            assert forall|k2: PieceKind| #[trigger] placed_count(s, cells, idx + 1, k2) <= inv_count(inv2, k2) by {
                if k2 != kind {
                    assert(placed_count(s, cells, idx, k2) == placed_count(s, cells, idx + 1, k2));
                }
            }
            lemma_winner_reachable(puzzle, cells, idx + 1, inv2, pl2, s);
        }
    }
}

/// The search misses nothing but what its two checks prune: when it finds no
/// placement, no placement that it could have built wins.
proof fn lemma_search_complete_but_for_pruning(puzzle: &Puzzle, m: Map<Pos, TrackType>)
    requires
        spec_solve(puzzle) is None,
        reachable_by_search(puzzle, spec_ordered_cells(puzzle), 0, puzzle.inventory, Map::empty(), m),
    ensures
        spec_simulate(puzzle, m) != SimResult::Win,
{
    lemma_dfs_complete(puzzle, spec_ordered_cells(puzzle), 0, puzzle.inventory, Map::empty(), m);
}

/// The search finds a solution whenever one exists: if some placement of pieces on
/// placeable cells, no more of each kind than the inventory holds, wins, then the search
/// returns a placement, which is a solution too (`law_solution_sound`).
pub proof fn law_search_complete(puzzle: &Puzzle, s: Map<Pos, TrackType>)
    requires
        puzzle.wf(),
        is_solution(puzzle, s),
    ensures
        spec_solve(puzzle) is Some,
{
    let cells = spec_ordered_cells(puzzle);
    lemma_ordered_cells(puzzle);
    puzzle.lemma_placeable_cells();
    assert forall|k: int| 0 <= k < cells.len() implies puzzle.cell(#[trigger] cells[k]) == CellKind::Placeable by {
        assert(cells.contains(cells[k]));
        assert(puzzle.spec_placeable_cells().contains(cells[k]));
        let i = choose|i: int| 0 <= i < puzzle.spec_placeable_cells().len() && puzzle.spec_placeable_cells()[i] == cells[k];
    }
    let e = Map::<Pos, TrackType>::empty();
    assert forall|p: Pos| #[trigger] s.contains_key(p) && !e.contains_key(p) implies exists|k: int| 0 <= k < cells.len() && cells[k] == p by {
        assert(cells.contains(p));
    }
    assert(agrees_before(s, e, cells, 0));
    assert forall|p: Pos| #[trigger] s.contains_key(p) implies puzzle.cell(p) == CellKind::Placeable by {
        assert(puzzle.spec_placeable_cells().contains(p));
        let i = choose|i: int| 0 <= i < puzzle.spec_placeable_cells().len() && puzzle.spec_placeable_cells()[i] == p;
    }
    assert forall|kind: PieceKind| #[trigger] placed_count(s, cells, 0, kind) <= inv_count(puzzle.inventory, kind) by {
        assert forall|p: Pos| #[trigger] s.contains_key(p) implies cells.contains(p) by {
            assert(puzzle.spec_placeable_cells().contains(p));
        }
        lemma_piece_count(s, cells, kind);
    }
    lemma_winner_reachable(puzzle, cells, 0, puzzle.inventory, e, s);
    if spec_solve(puzzle) is None {
        lemma_search_complete_but_for_pruning(puzzle, s);
    }
}

} // verus!
