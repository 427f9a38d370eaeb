use vstd::prelude::*;
use crate::posmap::Pos;
use crate::puzzle::{Caboose, Car, CellKind, Puzzle, Tunnel};
use crate::text::{
    before_hash, chars_eq_str, chars_of, clean_line, decimal, lines_of, lower_text, parse_uint,
    parse_uint_exec, push_chars, push_decimal, push_str, split_lines, split_words, starts_with_str,
    string_from_chars, to_lowercase, trim, views, words_of, all_ws, hash_index, is_ws, lemma_before_hash_concat,
    lemma_hash_range, lemma_split_words_ws, lemma_trim_end_concat, lemma_trim_end_ws, lemma_trim_start_concat,
    lemma_trim_start_empty, lemma_ws_no_hash, trim_end, trim_start,
};
use crate::solver::{count_of, inv_count, inv_with, set_count, PieceKind};
use crate::types::{Direction, Inventory, TrackType};

verus! {

/// A parse failure, with its message.
#[derive(Debug)]
pub struct ParseError(pub String);

impl ParseError {
    /// The message as it is shown to a user: `Parse error: ` and the message.
    pub fn to_string(&self) -> (r: String)
        ensures
            r@ == "Parse error: "@ + self.0@,
    {
        let mut s = String::new();
        push_str(&mut s, "Parse error: ");
        push_str(&mut s, self.0.as_str());
        s
    }
}

/// The section of a puzzle file that the lines being read belong to.
#[derive(Clone, Copy, Debug, PartialEq, Eq, Structural)]
pub enum Section {
    Grid,
    Trains,
    Cabooses,
    Tunnels,
    Pieces,
}

/// What has been read of a puzzle file so far.
pub struct ParseState {
    pub section: Option<Section>,
    pub cols: usize,
    pub rows: usize,
    pub grid: Seq<Seq<CellKind>>,
    pub cars: Seq<Car>,
    pub cabooses: Seq<Caboose>,
    pub tunnels: Seq<Tunnel>,
    pub inventory: Inventory,
}

/// The outcome of reading a line (or a whole file): go on with a new state, fail with a
/// message, or a step on which the reader would panic (a piece count that overflows, or a
/// terminal cell outside its grid row, which the check that every row has `cols` cells
/// rules out before the cells are marked).
pub enum Step {
    Next(ParseState),
    Fail(Seq<char>),
    Panic,
}

/// A message about the line with index `n` (shown counting from 1).
pub open spec fn line_msg(n: nat, text: Seq<char>) -> Seq<char> {
    "line "@ + decimal(n + 1) + ": "@ + text
}

/// `text` followed by `word` in single quotes.
pub open spec fn quoted(text: Seq<char>, word: Seq<char>) -> Seq<char> {
    text + "'"@ + word + "'"@
}

/// The grid cell that a cell code names.
pub open spec fn spec_parse_cell(t: Seq<char>) -> Option<CellKind> {
    if t == "."@ {
        Some(CellKind::Wall)
    } else if t == "_"@ {
        Some(CellKind::Placeable)
    } else {
        match TrackType::spec_from_code(t) {
            Some(tt) => Some(CellKind::Fixed(tt)),
            None => if t.len() == 2 && t[0] == 'T' && (t[1] as u32) < 128 {
                Some(CellKind::Tunnel(t[1]))
            } else {
                None
            },
        }
    }
}

/// The index of the first word from `k` on that is no cell code, or the number of words.
pub open spec fn bad_cell_index(w: Seq<Seq<char>>, k: int) -> int
    decreases w.len() - k,
{
    if k < 0 || k >= w.len() {
        w.len() as int
    } else if spec_parse_cell(w[k]) is None {
        k
    } else {
        bad_cell_index(w, k + 1)
    }
}

pub open spec fn grid_line(st: ParseState, w: Seq<Seq<char>>, n: nat) -> Step {
    if st.cols == 0 {
        Step::Fail(line_msg(n, "SIZE must appear before GRID"@))
    } else {
        let bad = bad_cell_index(w, 0);
        if bad < w.len() {
            Step::Fail(line_msg(n, quoted("unknown cell code "@, w[bad])))
        } else if w.len() != st.cols {
            Step::Fail(line_msg(n, "expected "@ + decimal(st.cols as nat) + " cells, got "@ + decimal(w.len())))
        } else {
            Step::Next(ParseState { grid: st.grid.push(Seq::new(w.len(), |i: int| spec_parse_cell(w[i])->0)), ..st })
        }
    }
}

pub open spec fn u8_of(t: Seq<char>) -> Option<nat> {
    parse_uint(t, 255)
}

pub open spec fn usize_of(t: Seq<char>) -> Option<nat> {
    parse_uint(t, usize::MAX as nat)
}

pub open spec fn trains_line(st: ParseState, w: Seq<Seq<char>>, n: nat) -> Step {
    if w.len() < 5 {
        Step::Fail(line_msg(n, "TRAIN needs: id row col dir color"@))
    } else {
        match u8_of(w[0]) {
            None => Step::Fail(line_msg(n, "bad id"@)),
            Some(id) => match usize_of(w[1]) {
                None => Step::Fail(line_msg(n, "bad row"@)),
                Some(row) => match usize_of(w[2]) {
                    None => Step::Fail(line_msg(n, "bad col"@)),
                    Some(col) => match Direction::spec_from_str(w[3]) {
                        None => Step::Fail(line_msg(n, quoted("bad direction "@, w[3]))),
                        Some(dir) => match u8_of(w[4]) {
                            None => Step::Fail(line_msg(n, "bad color"@)),
                            Some(color) => Step::Next(ParseState {
                                cars: st.cars.push(Car { id: id as u8, color: color as u8, row: row as usize, col: col as usize, dir }),
                                ..st
                            }),
                        },
                    },
                },
            },
        }
    }
}

pub open spec fn cabooses_line(st: ParseState, w: Seq<Seq<char>>, n: nat) -> Step {
    if w.len() < 4 {
        Step::Fail(line_msg(n, "CABOOSE needs: color row col entry_dir"@))
    } else {
        match u8_of(w[0]) {
            None => Step::Fail(line_msg(n, "bad color"@)),
            Some(color) => match usize_of(w[1]) {
                None => Step::Fail(line_msg(n, "bad row"@)),
                Some(row) => match usize_of(w[2]) {
                    None => Step::Fail(line_msg(n, "bad col"@)),
                    Some(col) => match Direction::spec_from_str(w[3]) {
                        None => Step::Fail(line_msg(n, quoted("bad direction "@, w[3]))),
                        Some(entry_side) => Step::Next(ParseState {
                            cabooses: st.cabooses.push(Caboose { color: color as u8, row: row as usize, col: col as usize, entry_side }),
                            ..st
                        }),
                    },
                },
            },
        }
    }
}

pub open spec fn tunnels_line(st: ParseState, w: Seq<Seq<char>>, n: nat) -> Step {
    if w.len() < 7 {
        Step::Fail(line_msg(n, "TUNNEL needs: label er ec ef xr xc xf"@))
    } else {
        match usize_of(w[1]) {
            None => Step::Fail(line_msg(n, "bad row"@)),
            Some(er) => match usize_of(w[2]) {
                None => Step::Fail(line_msg(n, "bad col"@)),
                Some(ec) => match Direction::spec_from_str(w[3]) {
                    None => Step::Fail(line_msg(n, "bad direction"@)),
                    Some(ef) => match usize_of(w[4]) {
                        None => Step::Fail(line_msg(n, "bad row"@)),
                        Some(xr) => match usize_of(w[5]) {
                            None => Step::Fail(line_msg(n, "bad col"@)),
                            Some(xc) => match Direction::spec_from_str(w[6]) {
                                None => Step::Fail(line_msg(n, "bad direction"@)),
                                Some(xf) => Step::Next(ParseState {
                                    tunnels: st.tunnels.push(Tunnel {
                                        label: w[0][0],
                                        entry_pos: (er as usize, ec as usize),
                                        entry_facing: ef,
                                        exit_pos: (xr as usize, xc as usize),
                                        exit_facing: xf,
                                    }),
                                    ..st
                                }),
                            },
                        },
                    },
                },
            },
        }
    }
}

/// The piece kind that a `PIECES` line names, given in lower case.
pub open spec fn spec_piece_kind(name: Seq<char>) -> Option<PieceKind> {
    if name == "straight"@ {
        Some(PieceKind::Straight)
    } else if name == "curve"@ {
        Some(PieceKind::Curve)
    } else if name == "crossing"@ {
        Some(PieceKind::Crossing)
    } else if name == "switch"@ {
        Some(PieceKind::Switch)
    } else {
        None
    }
}

/// Adds `count` pieces of a kind to the inventory; a sum beyond `usize::MAX` panics.
pub open spec fn add_pieces(st: ParseState, kind: PieceKind, count: nat) -> Step {
    let have = inv_count(st.inventory, kind);
    if have + count > usize::MAX {
        Step::Panic
    } else {
        Step::Next(ParseState { inventory: inv_with(st.inventory, kind, (have + count) as usize), ..st })
    }
}

pub open spec fn pieces_line(st: ParseState, w: Seq<Seq<char>>, n: nat) -> Step {
    if w.len() < 2 {
        Step::Fail(line_msg(n, "PIECES needs: type count"@))
    } else {
        match usize_of(w[1]) {
            None => Step::Fail(line_msg(n, "bad count"@)),
            Some(count) => {
                let name = lower_text(w[0]);
                match spec_piece_kind(name) {
                    Some(kind) => add_pieces(st, kind, count),
                    None => Step::Fail(line_msg(n, quoted("unknown piece type "@, name))),
                }
            },
        }
    }
}

pub open spec fn size_line(st: ParseState, w: Seq<Seq<char>>, n: nat) -> Step {
    if w.len() < 3 {
        Step::Fail(line_msg(n, "SIZE requires two numbers"@))
    } else {
        match usize_of(w[1]) {
            None => Step::Fail(line_msg(n, "bad cols"@)),
            Some(cols) => match usize_of(w[2]) {
                None => Step::Fail(line_msg(n, "bad rows"@)),
                Some(rows) => Step::Next(ParseState { cols: cols as usize, rows: rows as usize, ..st }),
            },
        }
    }
}

/// Reading the line with index `n`: comments after `#` and surrounding whitespace are
/// dropped, blank lines skipped; a section header switches section; a `SIZE` line sets the
/// size; any other line belongs to the current section.
pub open spec fn line_step(st: ParseState, line: Seq<char>, n: nat) -> Step {
    let body = trim(before_hash(line));
    if body.len() == 0 {
        Step::Next(st)
    } else if body == "GRID"@ {
        Step::Next(ParseState { section: Some(Section::Grid), ..st })
    } else if body == "TRAINS"@ {
        Step::Next(ParseState { section: Some(Section::Trains), ..st })
    } else if body == "CABOOSES"@ {
        Step::Next(ParseState { section: Some(Section::Cabooses), ..st })
    } else if body == "TUNNELS"@ {
        Step::Next(ParseState { section: Some(Section::Tunnels), ..st })
    } else if body == "PIECES"@ {
        Step::Next(ParseState { section: Some(Section::Pieces), ..st })
    } else if body.len() >= 4 && body.take(4) == "SIZE"@ {
        size_line(st, split_words(body), n)
    } else {
        match st.section {
            Some(Section::Grid) => grid_line(st, split_words(body), n),
            Some(Section::Trains) => trains_line(st, split_words(body), n),
            Some(Section::Cabooses) => cabooses_line(st, split_words(body), n),
            Some(Section::Tunnels) => tunnels_line(st, split_words(body), n),
            Some(Section::Pieces) => pieces_line(st, split_words(body), n),
            None => Step::Fail(line_msg(n, "unexpected content outside of a section"@)),
        }
    }
}

/// Reading the lines from index `k` on.
pub open spec fn lines_step(st: ParseState, lines: Seq<Seq<char>>, k: int) -> Step
    decreases lines.len() - k,
{
    if k < 0 || k >= lines.len() {
        Step::Next(st)
    } else {
        match line_step(st, lines[k], k as nat) {
            Step::Next(st2) => lines_step(st2, lines, k + 1),
            other => other,
        }
    }
}

/// The cells at positions from index `k` on that lie within the size set to `Terminal`;
/// `None` when one lies beyond the end of its grid row.
pub open spec fn mark_terminals(grid: Seq<Seq<CellKind>>, rows: usize, cols: usize, ps: Seq<Pos>, k: int) -> Option<Seq<Seq<CellKind>>>
    decreases ps.len() - k,
{
    if k < 0 || k >= ps.len() {
        Some(grid)
    } else {
        let p = ps[k];
        if p.0 < rows && p.1 < cols {
            if p.1 >= grid[p.0 as int].len() {
                None
            } else {
                mark_terminals(grid.update(p.0 as int, grid[p.0 as int].update(p.1 as int, CellKind::Terminal)), rows, cols, ps, k + 1)
            }
        } else {
            mark_terminals(grid, rows, cols, ps, k + 1)
        }
    }
}

/// The cells of the cars, then of the cabooses.
pub open spec fn terminal_positions(st: ParseState) -> Seq<Pos> {
    st.cars.map_values(|c: Car| c.row_col()) + st.cabooses.map_values(|c: Caboose| c.row_col())
}

/// The index of the first grid row from `k` on whose length is not `cols`, or the number
/// of rows (a `SIZE` line after the grid can leave rows of another length).
pub open spec fn bad_row_index(grid: Seq<Seq<CellKind>>, cols: usize, k: int) -> int
    decreases grid.len() - k,
{
    if k < 0 || k >= grid.len() {
        grid.len() as int
    } else if grid[k].len() != cols {
        k
    } else {
        bad_row_index(grid, cols, k + 1)
    }
}

/// The checks after the last line, and the cells of cars and cabooses marked as terminals.
pub open spec fn finish(st: ParseState) -> Step {
    if st.rows == 0 || st.cols == 0 {
        Step::Fail("SIZE not specified"@)
    } else if st.grid.len() != st.rows {
        Step::Fail("expected "@ + decimal(st.rows as nat) + " grid rows, got "@ + decimal(st.grid.len()))
    } else if bad_row_index(st.grid, st.cols, 0) < st.grid.len() {
        let r = bad_row_index(st.grid, st.cols, 0);
        Step::Fail("grid row "@ + decimal((r + 1) as nat) + ": expected "@ + decimal(st.cols as nat) + " cells, got "@
            + decimal(st.grid[r].len()))
    } else {
        match mark_terminals(st.grid, st.rows, st.cols, terminal_positions(st), 0) {
            Some(g) => Step::Next(ParseState { grid: g, ..st }),
            None => Step::Panic,
        }
    }
}

pub open spec fn initial_parse_state() -> ParseState {
    ParseState {
        section: None,
        cols: 0,
        rows: 0,
        grid: Seq::empty(),
        cars: Seq::empty(),
        cabooses: Seq::empty(),
        tunnels: Seq::empty(),
        inventory: Inventory { straight: 0, curve: 0, crossing: 0, switch: 0 },
    }
}

/// Reading a whole puzzle file.
pub open spec fn spec_parse(input: Seq<char>) -> Step {
    match lines_step(initial_parse_state(), split_lines(input), 0) {
        Step::Next(st) => finish(st),
        other => other,
    }
}

/// A puzzle with at least one row and one column whose grid has exactly `rows` rows of
/// `cols` cells each.
pub open spec fn rectangular(p: Puzzle) -> bool {
    &&& p.rows > 0
    &&& p.cols > 0
    &&& p.grid@.len() == p.rows
    &&& forall|r: int| 0 <= r < p.rows ==> (#[trigger] p.grid@[r])@.len() == p.cols
}

/// A puzzle that holds a state with a rectangular grid is rectangular.
proof fn lemma_rectangular(st: ParseState)
    requires
        st.rows > 0 && st.cols > 0,
        st.grid.len() == st.rows,
        forall|r: int| 0 <= r < st.rows ==> (#[trigger] st.grid[r]).len() == st.cols,
    ensures
        forall|p: Puzzle| #[trigger] puzzle_is(p, st) ==> rectangular(p),
{
    assert forall|p: Puzzle| #[trigger] puzzle_is(p, st) implies rectangular(p) by {
        assert forall|r: int| 0 <= r < p.rows implies (#[trigger] p.grid@[r])@.len() == p.cols by {
            assert(grid_view(p.grid@)[r] == p.grid@[r]@);
        }
    }
}

/// The rows of a grid, by their views.
pub open spec fn grid_view(g: Seq<Vec<CellKind>>) -> Seq<Seq<CellKind>> {
    g.map_values(|r: Vec<CellKind>| r@)
}

/// The puzzle holds what the state describes.
pub open spec fn puzzle_is(p: Puzzle, st: ParseState) -> bool {
    &&& p.rows == st.rows
    &&& p.cols == st.cols
    &&& grid_view(p.grid@) == st.grid
    &&& p.cars@ == st.cars
    &&& p.cabooses@ == st.cabooses
    &&& p.tunnels@ == st.tunnels
    &&& p.inventory == st.inventory
}


// ── Reading ─────────────────────────────────────────────────────────────────

/// Parses a grid cell code given as characters.
fn parse_cell_chars(t: &[char]) -> (r: Option<CellKind>)
    ensures
        r == spec_parse_cell(t@),
{
    if chars_eq_str(t, ".") {
        Some(CellKind::Wall)
    } else if chars_eq_str(t, "_") {
        Some(CellKind::Placeable)
    } else {
        match TrackType::from_code_chars(t) {
            Some(tt) => Some(CellKind::Fixed(tt)),
            None => {
                if t.len() == 2 && t[0] == 'T' && (t[1] as u32) < 128 {
                    Some(CellKind::Tunnel(t[1]))
                } else {
                    None
                }
            },
        }
    }
}

/// Parses a grid cell code: `.` wall, `_` placeable, a fixed track code, or `T` and a
/// one-letter tunnel label.
pub fn parse_cell(token: &str) -> (r: Option<CellKind>)
    ensures
        r == spec_parse_cell(token@),
{
    let cs = chars_of(token);
    parse_cell_chars(cs.as_slice())
}

/// The prefix of a message about the line with index `n`.
fn line_prefix(n: usize) -> (s: String)
    requires
        n < usize::MAX,
    ensures
        s@ == "line "@ + decimal((n + 1) as nat) + ": "@,
{
    let mut s = String::new();
    push_str(&mut s, "line ");
    push_decimal(&mut s, n + 1);
    push_str(&mut s, ": ");
    s
}

fn line_error(n: usize, text: &str) -> (e: ParseError)
    requires
        n < usize::MAX,
    ensures
        e.0@ == line_msg(n as nat, text@),
{
    let mut s = line_prefix(n);
    push_str(&mut s, text);
    ParseError(s)
}

fn line_error_quoted(n: usize, text: &str, word: &[char]) -> (e: ParseError)
    requires
        n < usize::MAX,
    ensures
        e.0@ == line_msg(n as nat, quoted(text@, word@)),
{
    let mut s = line_prefix(n);
    push_str(&mut s, text);
    push_str(&mut s, "'");
    push_chars(&mut s, word);
    push_str(&mut s, "'");
    assert(s@ == line_msg(n as nat, quoted(text@, word@)));
    ParseError(s)
}

/// What has been read so far, in executable form.
struct Builder {
    section: Option<Section>,
    cols: usize,
    rows: usize,
    grid: Vec<Vec<CellKind>>,
    cars: Vec<Car>,
    cabooses: Vec<Caboose>,
    tunnels: Vec<Tunnel>,
    inventory: Inventory,
}

impl View for Builder {
    type V = ParseState;

    closed spec fn view(&self) -> ParseState {
        ParseState {
            section: self.section,
            cols: self.cols,
            rows: self.rows,
            grid: grid_view(self.grid@),
            cars: self.cars@,
            cabooses: self.cabooses@,
            tunnels: self.tunnels@,
            inventory: self.inventory,
        }
    }
}

/// The result of reading a line matches its spec-level step; `None` stands for a panic.
pub open spec fn step_matches(step: Step, r: Option<Result<(), ParseError>>, after: ParseState) -> bool {
    match step {
        Step::Next(st) => r matches Some(Ok(_)) && after == st,
        Step::Fail(m) => r matches Some(Err(e)) && e.0@ == m,
        Step::Panic => r is None,
    }
}

fn u8_word(t: &[char]) -> (r: Option<u8>)
    ensures
        r matches Some(v) ==> u8_of(t@) == Some(v as nat),
        r is None ==> u8_of(t@) is None,
{
    match parse_uint_exec(t, 255) {
        Some(v) => Some(v as u8),
        None => None,
    }
}

fn usize_word(t: &[char]) -> (r: Option<usize>)
    ensures
        r matches Some(v) ==> usize_of(t@) == Some(v as nat),
        r is None ==> usize_of(t@) is None,
{
    parse_uint_exec(t, usize::MAX)
}

fn direction_word(t: &[char]) -> (r: Option<Direction>)
    ensures
        r == Direction::spec_from_str(t@),
{
    let s = string_from_chars(t);
    Direction::from_str(s.as_str())
}

fn read_grid_line(b: &mut Builder, w: &Vec<Vec<char>>, n: usize) -> (r: Option<Result<(), ParseError>>)
    requires
        n < usize::MAX,
    ensures
        step_matches(grid_line(old(b)@, views(w@), n as nat), r, final(b)@),
{
    let ghost ws = views(w@);
    if b.cols == 0 {
        return Some(Err(line_error(n, "SIZE must appear before GRID")));
    }
    let mut row: Vec<CellKind> = Vec::new();
    let mut i: usize = 0;
    while i < w.len()
        invariant
            i <= w@.len(),
            n < usize::MAX,
            b.cols != 0,
            b@ == old(b)@,
            ws == views(w@),
            bad_cell_index(ws, 0) == bad_cell_index(ws, i as int),
            row@.len() == i,
            forall|k: int| 0 <= k < i ==> spec_parse_cell(ws[k]) == Some(#[trigger] row@[k]),
        decreases w@.len() - i,
    {
        match parse_cell_chars(w[i].as_slice()) {
            Some(c) => {
                row.push(c);
            },
            None => {
                assert(bad_cell_index(ws, i as int) == i);
                return Some(Err(line_error_quoted(n, "unknown cell code ", w[i].as_slice())));
            },
        }
        i = i + 1;
    }
    if row.len() != b.cols {
        let mut s = line_prefix(n);
        push_str(&mut s, "expected ");
        push_decimal(&mut s, b.cols);
        push_str(&mut s, " cells, got ");
        push_decimal(&mut s, row.len());
        assert(s@ == line_msg(n as nat, "expected "@ + decimal(b.cols as nat) + " cells, got "@ + decimal(ws.len())));
        return Some(Err(ParseError(s)));
    }
    proof {
        assert(row@ =~= Seq::new(ws.len(), |k: int| spec_parse_cell(ws[k])->0));
        assert(grid_view(b.grid@.push(row)) == grid_view(b.grid@).push(row@));
    }
    b.grid.push(row);
    Some(Ok(()))
}

fn read_trains_line(b: &mut Builder, w: &Vec<Vec<char>>, n: usize) -> (r: Option<Result<(), ParseError>>)
    requires
        n < usize::MAX,
    ensures
        step_matches(trains_line(old(b)@, views(w@), n as nat), r, final(b)@),
{
    if w.len() < 5 {
        return Some(Err(line_error(n, "TRAIN needs: id row col dir color")));
    }
    let id = match u8_word(w[0].as_slice()) {
        Some(v) => v,
        None => return Some(Err(line_error(n, "bad id"))),
    };
    let row = match usize_word(w[1].as_slice()) {
        Some(v) => v,
        None => return Some(Err(line_error(n, "bad row"))),
    };
    let col = match usize_word(w[2].as_slice()) {
        Some(v) => v,
        None => return Some(Err(line_error(n, "bad col"))),
    };
    let dir = match direction_word(w[3].as_slice()) {
        Some(v) => v,
        None => return Some(Err(line_error_quoted(n, "bad direction ", w[3].as_slice()))),
    };
    let color = match u8_word(w[4].as_slice()) {
        Some(v) => v,
        None => return Some(Err(line_error(n, "bad color"))),
    };
    b.cars.push(Car { id, color, row, col, dir });
    Some(Ok(()))
}

fn read_cabooses_line(b: &mut Builder, w: &Vec<Vec<char>>, n: usize) -> (r: Option<Result<(), ParseError>>)
    requires
        n < usize::MAX,
    ensures
        step_matches(cabooses_line(old(b)@, views(w@), n as nat), r, final(b)@),
{
    if w.len() < 4 {
        return Some(Err(line_error(n, "CABOOSE needs: color row col entry_dir")));
    }
    let color = match u8_word(w[0].as_slice()) {
        Some(v) => v,
        None => return Some(Err(line_error(n, "bad color"))),
    };
    let row = match usize_word(w[1].as_slice()) {
        Some(v) => v,
        None => return Some(Err(line_error(n, "bad row"))),
    };
    let col = match usize_word(w[2].as_slice()) {
        Some(v) => v,
        None => return Some(Err(line_error(n, "bad col"))),
    };
    let entry_side = match direction_word(w[3].as_slice()) {
        Some(v) => v,
        None => return Some(Err(line_error_quoted(n, "bad direction ", w[3].as_slice()))),
    };
    b.cabooses.push(Caboose { color, row, col, entry_side });
    Some(Ok(()))
}

fn read_tunnels_line(b: &mut Builder, w: &Vec<Vec<char>>, n: usize) -> (r: Option<Result<(), ParseError>>)
    requires
        n < usize::MAX,
        forall|i: int| 0 <= i < w@.len() ==> (#[trigger] w@[i])@.len() > 0,
    ensures
        step_matches(tunnels_line(old(b)@, views(w@), n as nat), r, final(b)@),
{
    if w.len() < 7 {
        return Some(Err(line_error(n, "TUNNEL needs: label er ec ef xr xc xf")));
    }
    assert(w@[0]@.len() > 0);
    let label = w[0][0];
    let er = match usize_word(w[1].as_slice()) {
        Some(v) => v,
        None => return Some(Err(line_error(n, "bad row"))),
    };
    let ec = match usize_word(w[2].as_slice()) {
        Some(v) => v,
        None => return Some(Err(line_error(n, "bad col"))),
    };
    let ef = match direction_word(w[3].as_slice()) {
        Some(v) => v,
        None => return Some(Err(line_error(n, "bad direction"))),
    };
    let xr = match usize_word(w[4].as_slice()) {
        Some(v) => v,
        None => return Some(Err(line_error(n, "bad row"))),
    };
    let xc = match usize_word(w[5].as_slice()) {
        Some(v) => v,
        None => return Some(Err(line_error(n, "bad col"))),
    };
    let xf = match direction_word(w[6].as_slice()) {
        Some(v) => v,
        None => return Some(Err(line_error(n, "bad direction"))),
    };
    b.tunnels.push(Tunnel { label, entry_pos: (er, ec), entry_facing: ef, exit_pos: (xr, xc), exit_facing: xf });
    Some(Ok(()))
}

fn read_pieces_line(b: &mut Builder, w: &Vec<Vec<char>>, n: usize) -> (r: Option<Result<(), ParseError>>)
    requires
        n < usize::MAX,
    ensures
        step_matches(pieces_line(old(b)@, views(w@), n as nat), r, final(b)@),
{
    if w.len() < 2 {
        return Some(Err(line_error(n, "PIECES needs: type count")));
    }
    let count = match usize_word(w[1].as_slice()) {
        Some(v) => v,
        None => return Some(Err(line_error(n, "bad count"))),
    };
    let word = string_from_chars(w[0].as_slice());
    let lower = to_lowercase(word.as_str());
    assert(lower@ == lower_text(w@[0]@));
    match piece_kind_of(lower.as_str()) {
        Some(kind) => {
            let have = count_of(&b.inventory, kind);
            match have.checked_add(count) {
                Some(v) => set_count(&mut b.inventory, kind, v),
                None => return None,
            }
        },
        None => {
            let lc = chars_of(lower.as_str());
            return Some(Err(line_error_quoted(n, "unknown piece type ", lc.as_slice())));
        },
    }
    Some(Ok(()))
}

/// Reads the piece kind named in lower case: `straight`, `curve`, `crossing` or `switch`.
pub fn piece_kind_of(name: &str) -> (r: Option<PieceKind>)
    ensures
        r == spec_piece_kind(name@),
{
    let cs = chars_of(name);
    if chars_eq_str(cs.as_slice(), "straight") {
        Some(PieceKind::Straight)
    } else if chars_eq_str(cs.as_slice(), "curve") {
        Some(PieceKind::Curve)
    } else if chars_eq_str(cs.as_slice(), "crossing") {
        Some(PieceKind::Crossing)
    } else if chars_eq_str(cs.as_slice(), "switch") {
        Some(PieceKind::Switch)
    } else {
        None
    }
}

fn read_size_line(b: &mut Builder, w: &Vec<Vec<char>>, n: usize) -> (r: Option<Result<(), ParseError>>)
    requires
        n < usize::MAX,
    ensures
        step_matches(size_line(old(b)@, views(w@), n as nat), r, final(b)@),
{
    if w.len() < 3 {
        return Some(Err(line_error(n, "SIZE requires two numbers")));
    }
    let cols = match usize_word(w[1].as_slice()) {
        Some(v) => v,
        None => return Some(Err(line_error(n, "bad cols"))),
    };
    let rows = match usize_word(w[2].as_slice()) {
        Some(v) => v,
        None => return Some(Err(line_error(n, "bad rows"))),
    };
    b.cols = cols;
    b.rows = rows;
    Some(Ok(()))
}

/// Every word of a line is non-empty.
proof fn lemma_words_nonempty(s: Seq<char>)
    ensures
        forall|i: int| 0 <= i < split_words(s).len() ==> (#[trigger] split_words(s)[i]).len() > 0,
{
    lemma_word_state_nonempty(s, s.len() as int);
}

proof fn lemma_word_state_nonempty(s: Seq<char>, i: int)
    ensures
        forall|k: int| 0 <= k < crate::text::word_state(s, i).0.len() ==> (#[trigger] crate::text::word_state(s, i).0[k]).len() > 0,
    decreases i,
{
    if i > 0 {
        lemma_word_state_nonempty(s, i - 1);
        let (done, cur) = crate::text::word_state(s, i - 1);
        let (done2, cur2) = crate::text::word_state(s, i);
        if crate::text::is_ws(s[i - 1]) {
            if cur.len() > 0 {
                assert(done2 == done.push(cur));
                assert forall|k: int| 0 <= k < done2.len() implies (#[trigger] done2[k]).len() > 0 by {
                    if k < done.len() {
                        assert(done2[k] == done[k]);
                    }
                }
            } else {
                assert(done2 == done);
            }
        } else {
            assert(done2 == done);
        }
    }
}

fn read_line(b: &mut Builder, line: &[char], n: usize) -> (r: Option<Result<(), ParseError>>)
    requires
        n < usize::MAX,
    ensures
        step_matches(line_step(old(b)@, line@, n as nat), r, final(b)@),
{
    let body = clean_line(line);
    if body.len() == 0 {
        return Some(Ok(()));
    }
    if chars_eq_str(body.as_slice(), "GRID") {
        b.section = Some(Section::Grid);
        return Some(Ok(()));
    }
    if chars_eq_str(body.as_slice(), "TRAINS") {
        b.section = Some(Section::Trains);
        return Some(Ok(()));
    }
    if chars_eq_str(body.as_slice(), "CABOOSES") {
        b.section = Some(Section::Cabooses);
        return Some(Ok(()));
    }
    if chars_eq_str(body.as_slice(), "TUNNELS") {
        b.section = Some(Section::Tunnels);
        return Some(Ok(()));
    }
    if chars_eq_str(body.as_slice(), "PIECES") {
        b.section = Some(Section::Pieces);
        return Some(Ok(()));
    }
    let w = words_of(body.as_slice());
    proof {
        lemma_words_nonempty(body@);
        reveal_strlit("SIZE");
    }
    if starts_with_str(body.as_slice(), "SIZE") {
        return read_size_line(b, &w, n);
    }
    match b.section {
        Some(Section::Grid) => read_grid_line(b, &w, n),
        Some(Section::Trains) => read_trains_line(b, &w, n),
        Some(Section::Cabooses) => read_cabooses_line(b, &w, n),
        Some(Section::Tunnels) => {
            assert forall|i: int| 0 <= i < w@.len() implies (#[trigger] w@[i])@.len() > 0 by {
                assert(views(w@)[i] == w@[i]@);
            }
            read_tunnels_line(b, &w, n)
        },
        Some(Section::Pieces) => read_pieces_line(b, &w, n),
        None => Some(Err(line_error(n, "unexpected content outside of a section"))),
    }
}

fn copy_row(r: &Vec<CellKind>) -> (c: Vec<CellKind>)
    ensures
        c@ == r@,
{
    let mut c: Vec<CellKind> = Vec::new();
    let mut i: usize = 0;
    while i < r.len()
        invariant
            i <= r@.len(),
            c@ == r@.take(i as int),
        decreases r@.len() - i,
    {
        c.push(r[i]);
        assert(r@.take(i + 1) == r@.take(i as int).push(r@[i as int]));
        i = i + 1;
    }
    assert(r@.take(r@.len() as int) == r@);
    c
}

/// Sets the cells of the given positions that lie within the size to `Terminal`.
/// Returns false, having stopped, when a position within the size lies beyond the end of its row.
fn mark_cells(grid: &mut Vec<Vec<CellKind>>, rows: usize, cols: usize, ps: &Vec<Pos>) -> (ok: bool)
    requires
        old(grid)@.len() == rows,
    ensures
        ok == mark_terminals(grid_view(old(grid)@), rows, cols, ps@, 0) is Some,
        ok ==> mark_terminals(grid_view(old(grid)@), rows, cols, ps@, 0) == Some(grid_view(final(grid)@)),
{
    let mut k: usize = 0;
    while k < ps.len()
        invariant
            k <= ps@.len(),
            grid@.len() == rows,
            mark_terminals(grid_view(old(grid)@), rows, cols, ps@, 0) == mark_terminals(grid_view(grid@), rows, cols, ps@, k as int),
        decreases ps@.len() - k,
    {
        let p = ps[k];
        if p.0 < rows && p.1 < cols {
            assert(grid_view(grid@)[p.0 as int] == grid@[p.0 as int]@);
            if p.1 >= grid[p.0].len() {
                return false;
            }
            let mut row = copy_row(&grid[p.0]);
            row.set(p.1, CellKind::Terminal);
            let ghost before = grid@;
            grid.set(p.0, row);
            assert(grid_view(grid@) =~= grid_view(before).update(p.0 as int, grid_view(before)[p.0 as int].update(p.1 as int, CellKind::Terminal)));
        }
        k = k + 1;
    }
    true
}

/// Reads a puzzle file as `parse_puzzle` does, and returns `None` on the inputs on which
/// that reading would panic: a piece count whose sum overflows `usize`. A puzzle read
/// has a rectangular grid: a grid row whose length differs from the column count (left by
/// a `SIZE` line after the grid) is an error.
pub fn parse_puzzle_checked(input: &str) -> (r: Option<Result<Puzzle, ParseError>>)
    requires
        input@.len() < usize::MAX,
    ensures
        match spec_parse(input@) {
            Step::Next(st) => r matches Some(Ok(p)) && puzzle_is(p, st),
            Step::Fail(m) => r matches Some(Err(e)) && e.0@ == m,
            Step::Panic => r is None,
        },
        r matches Some(Ok(p)) ==> rectangular(p),
{
    let text = chars_of(input);
    let lines = lines_of(text.as_slice());
    let ghost ls = split_lines(input@);
    let mut b = Builder {
        section: None,
        cols: 0,
        rows: 0,
        grid: Vec::new(),
        cars: Vec::new(),
        cabooses: Vec::new(),
        tunnels: Vec::new(),
        inventory: Inventory { straight: 0, curve: 0, crossing: 0, switch: 0 },
    };
    proof {
        assert(b@.grid =~= Seq::<Seq<CellKind>>::empty());
        assert(b@ == initial_parse_state());
        lemma_lines_count(input@);
    }
    let mut k: usize = 0;
    while k < lines.len()
        invariant
            k <= lines@.len(),
            views(lines@) == ls,
            ls == split_lines(input@),
            ls.len() <= input@.len() + 1,
            input@.len() < usize::MAX,
            lines_step(initial_parse_state(), ls, 0) == lines_step(b@, ls, k as int),
        decreases lines@.len() - k,
    {
        assert(ls[k as int] == lines@[k as int]@);
        match read_line(&mut b, lines[k].as_slice(), k) {
            Some(Ok(())) => {},
            Some(Err(e)) => {
                return Some(Err(e));
            },
            None => {
                return None;
            },
        }
        k = k + 1;
    }
    if b.rows == 0 || b.cols == 0 {
        let mut s = String::new();
        push_str(&mut s, "SIZE not specified");
        return Some(Err(ParseError(s)));
    }
    if b.grid.len() != b.rows {
        let mut s = String::new();
        push_str(&mut s, "expected ");
        push_decimal(&mut s, b.rows);
        push_str(&mut s, " grid rows, got ");
        push_decimal(&mut s, b.grid.len());
        return Some(Err(ParseError(s)));
    }
    let ghost gv = grid_view(b.grid@);
    assert(gv == b@.grid);
    assert(spec_parse(input@) == finish(b@));
    let mut r: usize = 0;
    while r < b.grid.len()
        invariant
            spec_parse(input@) == finish(b@),
            b.rows != 0 && b.cols != 0,
            b.grid@.len() == b.rows,
            gv == b@.grid,
            r <= b.grid@.len(),
            gv == grid_view(b.grid@),
            bad_row_index(gv, b.cols, 0) == bad_row_index(gv, b.cols, r as int),
        decreases b.grid@.len() - r,
    {
        assert(gv[r as int] == b.grid@[r as int]@);
        if b.grid[r].len() != b.cols {
            let mut s = String::new();
            push_str(&mut s, "grid row ");
            push_decimal(&mut s, r + 1);
            push_str(&mut s, ": expected ");
            push_decimal(&mut s, b.cols);
            push_str(&mut s, " cells, got ");
            push_decimal(&mut s, b.grid[r].len());
            assert(bad_row_index(gv, b.cols, r as int) == r as int);
            assert(s@ == "grid row "@ + decimal((r + 1) as nat) + ": expected "@ + decimal(b.cols as nat) + " cells, got "@
                + decimal(gv[r as int].len()));
            return Some(Err(ParseError(s)));
        }
        r = r + 1;
    }
    let mut ps: Vec<Pos> = Vec::new();
    let mut i: usize = 0;
    let ghost st = b@;
    while i < b.cars.len()
        invariant
            i <= b.cars@.len(),
            st == b@,
            ps@ == st.cars.map_values(|c: Car| c.row_col()).take(i as int),
        decreases b.cars@.len() - i,
    {
        ps.push((b.cars[i].row, b.cars[i].col));
        assert(st.cars.map_values(|c: Car| c.row_col()).take(i + 1) == st.cars.map_values(|c: Car| c.row_col()).take(i as int).push(st.cars[i as int].row_col()));
        i = i + 1;
    }
    assert(st.cars.map_values(|c: Car| c.row_col()).take(b.cars@.len() as int) == st.cars.map_values(|c: Car| c.row_col()));
    let mut j: usize = 0;
    while j < b.cabooses.len()
        invariant
            j <= b.cabooses@.len(),
            st == b@,
            ps@ == st.cars.map_values(|c: Car| c.row_col()) + st.cabooses.map_values(|c: Caboose| c.row_col()).take(j as int),
        decreases b.cabooses@.len() - j,
    {
        ps.push((b.cabooses[j].row, b.cabooses[j].col));
        assert(st.cabooses.map_values(|c: Caboose| c.row_col()).take(j + 1) == st.cabooses.map_values(|c: Caboose| c.row_col()).take(j as int).push(st.cabooses[j as int].row_col()));
        j = j + 1;
    }
    assert(st.cabooses.map_values(|c: Caboose| c.row_col()).take(b.cabooses@.len() as int) == st.cabooses.map_values(|c: Caboose| c.row_col()));
    assert(ps@ == terminal_positions(st));
    let mut grid = b.grid;
    if !mark_cells(&mut grid, b.rows, b.cols, &ps) {
        return None;
    }
    let p = Puzzle {
        rows: b.rows,
        cols: b.cols,
        grid,
        cars: b.cars,
        cabooses: b.cabooses,
        tunnels: b.tunnels,
        inventory: b.inventory,
    };
    proof {
        law_parse_marks_terminals(input@);
        let fin = spec_parse(input@)->Next_0;
        assert(puzzle_is(p, fin));
        lemma_rectangular(fin);
    }
    Some(Ok(p))
}

/// Parse a puzzle from the text of a `.rail` file.
///
/// A file has a `SIZE <cols> <rows>` line and the sections `GRID` (one line of cell codes
/// per row), `TRAINS` (`<id> <row> <col> <dir> <color>`), `CABOOSES`
/// (`<color> <row> <col> <entry_dir>`), `TUNNELS`
/// (`<label> <entry_row> <entry_col> <entry_facing> <exit_row> <exit_col> <exit_facing>`)
/// and `PIECES` (`straight|curve|crossing|switch <n>`); `#` starts a comment. The cells of
/// cars and cabooses become terminal cells.
pub fn parse_puzzle(input: &str) -> (r: Result<Puzzle, ParseError>)
    requires
        input@.len() < usize::MAX,
        !(spec_parse(input@) is Panic),
    ensures
        match spec_parse(input@) {
            Step::Next(st) => r matches Ok(p) && puzzle_is(p, st),
            Step::Fail(m) => r matches Err(e) && e.0@ == m,
            Step::Panic => false,
        },
        r matches Ok(p) ==> rectangular(p),
{
    match parse_puzzle_checked(input) {
        Some(r) => r,
        None => Err(ParseError(String::new())),
    }
}

/// A blank line, or one that holds only a comment, leaves what has been read unchanged.
pub proof fn law_blank_lines_ignored(st: ParseState, line: Seq<char>, n: nat)
    requires
        trim(before_hash(line)).len() == 0,
    ensures
        line_step(st, line, n) == Step::Next(st),
{
}

/// A line's number shows only in error messages: whether a line is accepted, what it
/// changes, and whether it panics do not depend on where it stands.
pub proof fn law_line_number_only_in_messages(st: ParseState, line: Seq<char>, n: nat, n2: nat)
    ensures
        line_step(st, line, n) is Next <==> line_step(st, line, n2) is Next,
        line_step(st, line, n) is Panic <==> line_step(st, line, n2) is Panic,
        line_step(st, line, n) matches Step::Next(a) ==> line_step(st, line, n2) == Step::Next(a),
{
}

/// Two outcomes agree but for the text of an error message.
pub open spec fn same_outcome(a: Step, b: Step) -> bool {
    match (a, b) {
        (Step::Next(x), Step::Next(y)) => x == y,
        (Step::Fail(_), Step::Fail(_)) => true,
        (Step::Panic, Step::Panic) => true,
        _ => false,
    }
}

/// Reading a file given as its lines.
pub open spec fn parse_lines(ls: Seq<Seq<char>>) -> Step {
    match lines_step(initial_parse_state(), ls, 0) {
        Step::Next(st) => finish(st),
        other => other,
    }
}

proof fn lemma_lines_offset(st: ParseState, ls: Seq<Seq<char>>, i: int, ls2: Seq<Seq<char>>, i2: int)
    requires
        0 <= i <= ls.len(),
        0 <= i2 <= ls2.len(),
        ls.subrange(i, ls.len() as int) == ls2.subrange(i2, ls2.len() as int),
    ensures
        same_outcome(lines_step(st, ls, i), lines_step(st, ls2, i2)),
    decreases ls.len() - i,
{
    if i < ls.len() {
        let r1 = ls.subrange(i, ls.len() as int);
        let r2 = ls2.subrange(i2, ls2.len() as int);
        assert(r1.len() == ls.len() - i);
        assert(r2.len() == ls2.len() - i2);
        assert(r1 == r2);
        assert(i2 < ls2.len());
        assert(ls[i] == ls.subrange(i, ls.len() as int)[0]);
        assert(ls2[i2] == ls2.subrange(i2, ls2.len() as int)[0]);
        law_line_number_only_in_messages(st, ls[i], i as nat, i2 as nat);
        assert(ls.subrange(i + 1, ls.len() as int) == ls.subrange(i, ls.len() as int).subrange(1, ls.len() - i));
        assert(ls2.subrange(i2 + 1, ls2.len() as int) == ls2.subrange(i2, ls2.len() as int).subrange(1, ls2.len() - i2));
        if let Step::Next(a) = line_step(st, ls[i], i as nat) {
            lemma_lines_offset(a, ls, i + 1, ls2, i2 + 1);
        }
    } else {
        assert(ls2.subrange(i2, ls2.len() as int).len() == 0);
    }
}

proof fn lemma_lines_insert(st: ParseState, ls: Seq<Seq<char>>, k: int, b: Seq<char>, i: int)
    requires
        0 <= i <= k <= ls.len(),
        trim(before_hash(b)).len() == 0,
    ensures
        same_outcome(lines_step(st, ls, i), lines_step(st, ls.insert(k, b), i)),
    decreases k - i,
{
    let ls2 = ls.insert(k, b);
    if i < k {
        assert(ls2[i] == ls[i]);
        if let Step::Next(a) = line_step(st, ls[i], i as nat) {
            lemma_lines_insert(a, ls, k, b, i + 1);
        }
    } else {
        assert(ls2[k] == b);
        law_blank_lines_ignored(st, b, k as nat);
        assert(ls.subrange(k, ls.len() as int) == ls2.subrange(k + 1, ls2.len() as int));
        lemma_lines_offset(st, ls, k, ls2, k + 1);
    }
}

/// A blank or comment-only line added anywhere among the lines of a file changes nothing
/// but the line numbers in error messages: the file parses exactly when it did, to the same
/// puzzle, and panics exactly when it did.
pub proof fn law_blank_line_inserted(ls: Seq<Seq<char>>, k: int, b: Seq<char>)
    requires
        0 <= k <= ls.len(),
        trim(before_hash(b)).len() == 0,
    ensures
        same_outcome(parse_lines(ls), parse_lines(ls.insert(k, b))),
{
    lemma_lines_insert(initial_parse_state(), ls, k, b, 0);
}

/// Reading a text is reading its lines.
pub proof fn law_parse_reads_lines(input: Seq<char>)
    ensures
        spec_parse(input) == parse_lines(split_lines(input)),
{
}

proof fn lemma_mark_terminals(grid: Seq<Seq<CellKind>>, rows: usize, cols: usize, ps: Seq<Pos>, k: int)
    requires
        0 <= k,
        grid.len() == rows,
    ensures
        mark_terminals(grid, rows, cols, ps, k) matches Some(g) ==> {
            &&& g.len() == grid.len()
            &&& forall|r: int| 0 <= r < grid.len() ==> (#[trigger] g[r]).len() == grid[r].len()
            &&& forall|j: int| k <= j < ps.len() && (#[trigger] ps[j]).0 < rows && ps[j].1 < cols
                ==> g[ps[j].0 as int][ps[j].1 as int] == CellKind::Terminal
            &&& forall|r: int, c: int| 0 <= r < grid.len() && 0 <= c < grid[r].len() && #[trigger] grid[r][c] == CellKind::Terminal
                ==> g[r][c] == CellKind::Terminal
        },
    decreases ps.len() - k,
{
    if k < ps.len() {
        let p = ps[k];
        if p.0 < rows && p.1 < cols {
            if p.1 < grid[p.0 as int].len() {
                let g2 = grid.update(p.0 as int, grid[p.0 as int].update(p.1 as int, CellKind::Terminal));
                lemma_mark_terminals(g2, rows, cols, ps, k + 1);
                if let Some(g) = mark_terminals(g2, rows, cols, ps, k + 1) {
                    assert(g2[p.0 as int][p.1 as int] == CellKind::Terminal);
                    assert forall|r: int| 0 <= r < grid.len() implies (#[trigger] g[r]).len() == grid[r].len() by {
                        assert(g2[r].len() == grid[r].len());
                    }
                    assert forall|r: int, c: int| 0 <= r < grid.len() && 0 <= c < grid[r].len() && #[trigger] grid[r][c] == CellKind::Terminal
                        implies g[r][c] == CellKind::Terminal by {
                        assert(g2[r][c] == CellKind::Terminal);
                    }
                }
            }
        } else {
            lemma_mark_terminals(grid, rows, cols, ps, k + 1);
        }
    }
}

/// When no row from `k` on has the wrong length, every row from `k` on has `cols` cells.
proof fn lemma_bad_row_index(grid: Seq<Seq<CellKind>>, cols: usize, k: int)
    requires
        0 <= k,
        bad_row_index(grid, cols, k) >= grid.len(),
    ensures
        forall|r: int| k <= r < grid.len() ==> (#[trigger] grid[r]).len() == cols,
    decreases grid.len() - k,
{
    if k < grid.len() {
        lemma_bad_row_index(grid, cols, k + 1);
    }
}

/// Reading a puzzle leaves a grid of `rows` rows of `cols` cells each, both nonzero, and
/// the cell of every car and every caboose inside the puzzle's size is a terminal cell.
pub proof fn law_parse_marks_terminals(input: Seq<char>)
    ensures
        spec_parse(input) matches Step::Next(st) ==> {
            &&& st.rows > 0 && st.cols > 0
            &&& st.grid.len() == st.rows
            &&& forall|r: int| 0 <= r < st.rows ==> (#[trigger] st.grid[r]).len() == st.cols
            &&& forall|i: int| 0 <= i < st.cars.len() && (#[trigger] st.cars[i]).row < st.rows && st.cars[i].col < st.cols
                ==> st.grid[st.cars[i].row as int][st.cars[i].col as int] == CellKind::Terminal
            &&& forall|i: int| 0 <= i < st.cabooses.len() && (#[trigger] st.cabooses[i]).row < st.rows && st.cabooses[i].col < st.cols
                ==> st.grid[st.cabooses[i].row as int][st.cabooses[i].col as int] == CellKind::Terminal
        },
{
    if let Step::Next(st0) = lines_step(initial_parse_state(), split_lines(input), 0) {
        if st0.rows != 0 && st0.cols != 0 && st0.grid.len() == st0.rows && bad_row_index(st0.grid, st0.cols, 0) >= st0.grid.len() {
            let ps = terminal_positions(st0);
            lemma_mark_terminals(st0.grid, st0.rows, st0.cols, ps, 0);
            if let Some(g) = mark_terminals(st0.grid, st0.rows, st0.cols, ps, 0) {
                lemma_bad_row_index(st0.grid, st0.cols, 0);
                let nc = st0.cars.len();
                assert forall|i: int| 0 <= i < st0.cars.len() && (#[trigger] st0.cars[i]).row < st0.rows && st0.cars[i].col < st0.cols
                    implies g[st0.cars[i].row as int][st0.cars[i].col as int] == CellKind::Terminal by {
                    assert(ps[i] == st0.cars[i].row_col());
                }
                assert forall|i: int| 0 <= i < st0.cabooses.len() && (#[trigger] st0.cabooses[i]).row < st0.rows && st0.cabooses[i].col < st0.cols
                    implies g[st0.cabooses[i].row as int][st0.cabooses[i].col as int] == CellKind::Terminal by {
                    assert(ps[nc + i] == st0.cabooses[i].row_col());
                }
            }
        }
    }
}

/// A text has at most one more line than characters.
// ── Lines read alike ────────────────────────────────────────────────────────

/// Two lines are read alike: whatever has been read before, and wherever they stand.
pub open spec fn reads_alike(a: Seq<char>, b: Seq<char>) -> bool {
    forall|st: ParseState, n: nat| #[trigger] line_step(st, a, n) == line_step(st, b, n)
}

/// A text with no `#` is all that comes before one.
proof fn lemma_no_hash(s: Seq<char>)
    requires
        hash_index(s, 0) >= s.len(),
    ensures
        before_hash(s) == s,
{
    lemma_hash_range(s, 0);
    assert(s.take(s.len() as int) == s);
}

/// A comment appended to a line changes nothing.
pub proof fn law_trailing_comment_ignored(line: Seq<char>, comment: Seq<char>)
    ensures
        reads_alike(line + seq!['#'] + comment, line),
{
    let c = seq!['#'] + comment;
    assert(line + seq!['#'] + comment == line + c);
    lemma_before_hash_concat(line, c);
    if hash_index(line, 0) >= line.len() {
        lemma_no_hash(line);
        assert(c[0] == '#');
        assert(hash_index(c, 0) == 0);
        assert(before_hash(c) == Seq::<char>::empty());
        assert(line + before_hash(c) == line);
    }
}

/// Whitespace before and after a line changes nothing.
pub proof fn law_surrounding_whitespace_ignored(pre: Seq<char>, line: Seq<char>, post: Seq<char>)
    requires
        all_ws(pre),
        all_ws(post),
    ensures
        reads_alike(pre + line + post, line),
{
    let x = line + post;
    assert(pre + line + post == pre + x);
    lemma_ws_no_hash(pre, 0);
    lemma_before_hash_concat(pre, x);
    lemma_before_hash_concat(line, post);
    let b = before_hash(x);
    lemma_trim_start_concat(pre, b);
    if hash_index(line, 0) >= line.len() {
        lemma_ws_no_hash(post, 0);
        lemma_no_hash(post);
        lemma_no_hash(line);
        lemma_trim_start_concat(line, post);
        if all_ws(line) {
            lemma_trim_start_empty(post);
            lemma_trim_start_empty(line);
        } else {
            lemma_trim_end_ws(trim_start(line), post);
        }
    }
    assert(trim(before_hash(pre + line + post)) == trim(before_hash(line)));
}

/// The header words and `SIZE` hold no whitespace, so a text with whitespace at index `i`
/// is none of them and, with `i` among its first four characters, does not start with `SIZE`.
proof fn lemma_headers_no_ws(x: Seq<char>, i: int)
    requires
        0 <= i < x.len(),
        is_ws(x[i]),
    ensures
        x != "GRID"@,
        x != "TRAINS"@,
        x != "CABOOSES"@,
        x != "TUNNELS"@,
        x != "PIECES"@,
        i < 4 ==> !(x.len() >= 4 && x.take(4) == "SIZE"@),
{
    reveal_strlit("GRID");
    reveal_strlit("TRAINS");
    reveal_strlit("CABOOSES");
    reveal_strlit("TUNNELS");
    reveal_strlit("PIECES");
    reveal_strlit("SIZE");
    if i < 4 && x.len() >= 4 {
        assert(x.take(4)[i] == x[i]);
    }
}

/// Reading a line whose text, comment and surrounding whitespace removed, is `pre`, a
/// whitespace character and `post`, both of them not empty.
proof fn lemma_inner_body(st: ParseState, n: nat, l1: Seq<char>, l2: Seq<char>, a: Seq<char>, c: Seq<char>, w: char, w2: char)
    requires
        is_ws(w),
        is_ws(w2),
        a.len() > 0,
        trim(before_hash(l1)) == a + seq![w] + c,
        trim(before_hash(l2)) == a + seq![w, w2] + c,
    ensures
        line_step(st, l1, n) == line_step(st, l2, n),
{
    let x = a + seq![w] + c;
    let y = a + seq![w, w2] + c;
    assert(x[a.len() as int] == w);
    assert(y[a.len() as int] == w);
    lemma_headers_no_ws(x, a.len() as int);
    lemma_headers_no_ws(y, a.len() as int);
    if a.len() >= 4 {
        assert(x.take(4) == a.take(4));
        assert(y.take(4) == a.take(4));
    }
    lemma_split_words_ws(a, c, w, w2);
}

/// More whitespace next to whitespace changes nothing: between words, around them, or in
/// a comment.
pub proof fn law_inner_whitespace_ignored(a: Seq<char>, b: Seq<char>, w: char, w2: char)
    requires
        is_ws(w),
        is_ws(w2),
    ensures
        reads_alike(a + seq![w] + b, a + seq![w, w2] + b),
{
    let l1 = a + seq![w] + b;
    let l2 = a + seq![w, w2] + b;
    let s1 = seq![w] + b;
    let s2 = seq![w, w2] + b;
    assert(l1 == a + s1);
    assert(l2 == a + s2);
    lemma_before_hash_concat(a, s1);
    lemma_before_hash_concat(a, s2);
    if hash_index(a, 0) >= a.len() {
        lemma_no_hash(a);
        let c = before_hash(b);
        assert(all_ws(seq![w]));
        assert(all_ws(seq![w, w2]));
        lemma_ws_no_hash(seq![w], 0);
        lemma_ws_no_hash(seq![w, w2], 0);
        lemma_before_hash_concat(seq![w], b);
        lemma_before_hash_concat(seq![w, w2], b);
        let x = a + (seq![w] + c);
        let y = a + (seq![w, w2] + c);
        assert(before_hash(l1) == x);
        assert(before_hash(l2) == y);
        lemma_trim_start_concat(a, seq![w] + c);
        lemma_trim_start_concat(a, seq![w, w2] + c);
        if all_ws(a) {
            lemma_trim_start_concat(seq![w], c);
            lemma_trim_start_concat(seq![w, w2], c);
            assert(trim(before_hash(l1)) == trim(before_hash(l2)));
        } else {
            let aa = trim_start(a);
            lemma_trim_start_empty(a);
            assert(trim_start(x) == aa + (seq![w] + c));
            assert(trim_start(y) == aa + (seq![w, w2] + c));
            if all_ws(c) {
                let sw1 = seq![w] + c;
                let sw2 = seq![w, w2] + c;
                assert(all_ws(sw1)) by {
                    assert forall|i: int| 0 <= i < sw1.len() implies is_ws(#[trigger] sw1[i]) by {
                        if i > 0 {
                            assert(sw1[i] == c[i - 1]);
                        }
                    }
                }
                assert(all_ws(sw2)) by {
                    assert forall|i: int| 0 <= i < sw2.len() implies is_ws(#[trigger] sw2[i]) by {
                        if i > 1 {
                            assert(sw2[i] == c[i - 2]);
                        }
                    }
                }
                lemma_trim_end_ws(aa, seq![w] + c);
                lemma_trim_end_ws(aa, seq![w, w2] + c);
                assert(trim(before_hash(l1)) == trim(before_hash(l2)));
            } else {
                lemma_trim_end_concat(aa + seq![w], c);
                lemma_trim_end_concat(aa + seq![w, w2], c);
                assert(aa + (seq![w] + c) == aa + seq![w] + c);
                assert(aa + (seq![w, w2] + c) == aa + seq![w, w2] + c);
                let cc = trim_end(c);
                assert(trim(before_hash(l1)) == aa + seq![w] + cc);
                assert(trim(before_hash(l2)) == aa + seq![w, w2] + cc);
                assert forall|st: ParseState, n: nat| #[trigger] line_step(st, l1, n) == line_step(st, l2, n) by {
                    lemma_inner_body(st, n, l1, l2, aa, cc, w, w2);
                }
            }
        }
    }
}

proof fn lemma_lines_update(st: ParseState, ls: Seq<Seq<char>>, k: int, b: Seq<char>, i: int)
    requires
        0 <= i,
        0 <= k < ls.len(),
        reads_alike(ls[k], b),
    ensures
        lines_step(st, ls, i) == lines_step(st, ls.update(k, b), i),
    decreases ls.len() - i,
{
    let ls2 = ls.update(k, b);
    if i < ls.len() {
        assert(line_step(st, ls[i], i as nat) == line_step(st, ls2[i], i as nat));
        if let Step::Next(a) = line_step(st, ls[i], i as nat) {
            lemma_lines_update(a, ls, k, b, i + 1);
        }
    }
}

/// A line replaced by one read alike (with a comment appended, or more whitespace around
/// or between its words) leaves the outcome of reading the file exactly as it was.
pub proof fn law_line_read_alike(ls: Seq<Seq<char>>, k: int, b: Seq<char>)
    requires
        0 <= k < ls.len(),
        reads_alike(ls[k], b),
    ensures
        parse_lines(ls) == parse_lines(ls.update(k, b)),
{
    lemma_lines_update(initial_parse_state(), ls, k, b, 0);
}

/// Two files whose lines agree but for one, read alike in both, read to the same outcome.
pub proof fn law_parse_line_read_alike(input: Seq<char>, input2: Seq<char>, k: int)
    requires
        0 <= k < split_lines(input).len(),
        split_lines(input2) == split_lines(input).update(k, split_lines(input2)[k]),
        reads_alike(split_lines(input)[k], split_lines(input2)[k]),
    ensures
        spec_parse(input) == spec_parse(input2),
{
    law_line_read_alike(split_lines(input), k, split_lines(input2)[k]);
    law_parse_reads_lines(input);
    law_parse_reads_lines(input2);
}

proof fn lemma_lines_count(s: Seq<char>)
    ensures
        split_lines(s).len() <= s.len() + 1,
{
    lemma_split_state_count(s, s.len() as int);
}

proof fn lemma_split_state_count(s: Seq<char>, i: int)
    requires
        0 <= i <= s.len(),
    ensures
        crate::text::split_state(s, '\n', i).0.len() <= i,
    decreases i,
{
    if i > 0 {
        lemma_split_state_count(s, i - 1);
    }
}

} // verus!
