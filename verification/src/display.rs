use vstd::prelude::*;
use crate::posmap::{keys_distinct, map_of, pos_lt, Pos, PosMap};
use crate::puzzle::{Caboose, Car, CellKind, Puzzle};
use crate::text::{chars_of, decimal, push_char, push_decimal, push_str, string_from_str};
use crate::types::{Direction, Inventory, TrackType};

verus! {

/// The arrow that shows a car's starting direction.
pub open spec fn arrow(d: Direction) -> Seq<char> {
    match d {
        Direction::North => "↑"@,
        Direction::South => "↓"@,
        Direction::East => "→"@,
        Direction::West => "←"@,
    }
}

/// How a cell shows by its fixed contents.
pub open spec fn base_label(k: CellKind) -> Seq<char> {
    match k {
        CellKind::Wall => " "@,
        CellKind::Placeable => "░"@,
        CellKind::Fixed(t) => t.spec_display_char(),
        CellKind::Tunnel(l) => seq!['T', l],
        CellKind::Terminal => "·"@,
    }
}

/// The last car in the list that starts at `p`.
pub open spec fn last_car_at(cars: Seq<Car>, p: Pos) -> Option<Car>
    decreases cars.len(),
{
    if cars.len() == 0 {
        None
    } else if cars.last().row_col() == p {
        Some(cars.last())
    } else {
        last_car_at(cars.drop_last(), p)
    }
}

/// The last caboose in the list that stands at `p`.
pub open spec fn last_caboose_at(cabs: Seq<Caboose>, p: Pos) -> Option<Caboose>
    decreases cabs.len(),
{
    if cabs.len() == 0 {
        None
    } else if cabs.last().row_col() == p {
        Some(cabs.last())
    } else {
        last_caboose_at(cabs.drop_last(), p)
    }
}

/// How the cell at `p` shows: a car's arrow and id, else a caboose's `C` and color, else the
/// placed piece, else the fixed contents.
pub open spec fn cell_label(puzzle: &Puzzle, sol: Map<Pos, TrackType>, p: Pos) -> Seq<char> {
    match last_car_at(puzzle.cars@, p) {
        Some(c) => arrow(c.dir) + decimal(c.id as nat),
        None => match last_caboose_at(puzzle.cabooses@, p) {
            Some(cab) => "C"@ + decimal(cab.color as nat),
            None => if sol.contains_key(p) {
                sol[p].spec_display_char()
            } else {
                base_label(puzzle.cell(p))
            },
        },
    }
}

/// The widest label among the first `k` rows of column `c`.
pub open spec fn max_label_len(puzzle: &Puzzle, sol: Map<Pos, TrackType>, c: int, k: int) -> nat
    decreases k,
{
    if k <= 0 {
        0
    } else {
        let prev = max_label_len(puzzle, sol, c, k - 1);
        let len = cell_label(puzzle, sol, ((k - 1) as usize, c as usize)).len();
        if len > prev { len } else { prev }
    }
}

/// The width of column `c`: its widest label, or 1 when there are no rows.
pub open spec fn col_width(puzzle: &Puzzle, sol: Map<Pos, TrackType>, c: int) -> nat {
    if puzzle.rows == 0 { 1 } else { max_label_len(puzzle, sol, c, puzzle.rows as int) }
}

pub open spec fn repeat(ch: char, n: nat) -> Seq<char> {
    Seq::new(n, |i: int| ch)
}

/// One cell of a row line: the label padded to the column width, between spaces and a bar.
pub open spec fn cell_segment(label: Seq<char>, w: nat) -> Seq<char> {
    " "@ + label + repeat(' ', if w >= label.len() { (w - label.len()) as nat } else { 0 }) + " │"@
}

pub open spec fn row_segments(puzzle: &Puzzle, sol: Map<Pos, TrackType>, r: int, k: int) -> Seq<char>
    decreases k,
{
    if k <= 0 {
        Seq::empty()
    } else {
        row_segments(puzzle, sol, r, k - 1) + cell_segment(
            cell_label(puzzle, sol, (r as usize, (k - 1) as usize)),
            col_width(puzzle, sol, k - 1),
        )
    }
}

/// The line that shows row `r`.
pub open spec fn row_line(puzzle: &Puzzle, sol: Map<Pos, TrackType>, r: int) -> Seq<char> {
    "│"@ + row_segments(puzzle, sol, r, puzzle.cols as int)
}

pub open spec fn sep_segments(puzzle: &Puzzle, sol: Map<Pos, TrackType>, k: int) -> Seq<char>
    decreases k,
{
    if k <= 0 {
        Seq::empty()
    } else {
        sep_segments(puzzle, sol, k - 1) + repeat('─', col_width(puzzle, sol, k - 1) + 2) + if k - 1 < puzzle.cols - 1 {
            "┼"@
        } else {
            Seq::empty()
        }
    }
}

/// The line between two rows.
pub open spec fn sep_line(puzzle: &Puzzle, sol: Map<Pos, TrackType>) -> Seq<char> {
    "├"@ + sep_segments(puzzle, sol, puzzle.cols as int) + "┤"@
}

pub open spec fn widths_sum(puzzle: &Puzzle, sol: Map<Pos, TrackType>, k: int) -> nat
    decreases k,
{
    if k <= 0 { 0 } else { widths_sum(puzzle, sol, k - 1) + col_width(puzzle, sol, k - 1) }
}

/// The width of the board in characters.
pub open spec fn total_width(puzzle: &Puzzle, sol: Map<Pos, TrackType>) -> nat {
    widths_sum(puzzle, sol, puzzle.cols as int) + (puzzle.cols as nat) * 3 + 1
}

pub open spec fn top_line(puzzle: &Puzzle, sol: Map<Pos, TrackType>) -> Seq<char> {
    "┌"@ + repeat('─', (total_width(puzzle, sol) - 2) as nat) + "┐"@
}

pub open spec fn bottom_line(puzzle: &Puzzle, sol: Map<Pos, TrackType>) -> Seq<char> {
    "└"@ + repeat('─', (total_width(puzzle, sol) - 2) as nat) + "┘"@
}

/// The lines of the first `k` rows, each but the last row followed by a separator.
pub open spec fn body_lines(puzzle: &Puzzle, sol: Map<Pos, TrackType>, k: int) -> Seq<Seq<char>>
    decreases k,
{
    if k <= 0 {
        Seq::empty()
    } else {
        let prev = body_lines(puzzle, sol, k - 1).push(row_line(puzzle, sol, k - 1));
        if k - 1 < puzzle.rows - 1 { prev.push(sep_line(puzzle, sol)) } else { prev }
    }
}

/// The board as lines of text, drawn with box-drawing characters.
pub open spec fn board(puzzle: &Puzzle, sol: Map<Pos, TrackType>) -> Seq<Seq<char>> {
    seq![top_line(puzzle, sol)] + body_lines(puzzle, sol, puzzle.rows as int) + seq![bottom_line(puzzle, sol)]
}

/// What drawing a board needs: a well-formed grid with at least one column, and not so
/// many columns that the board's width overflows; cars, cabooses and placements on the grid.
pub open spec fn drawable(puzzle: &Puzzle, sol: Map<Pos, TrackType>) -> bool {
    &&& puzzle.wf()
    &&& 1 <= puzzle.cols <= usize::MAX / 8
    &&& forall|i: int| 0 <= i < puzzle.cars@.len() ==> puzzle.in_grid((#[trigger] puzzle.cars@[i]).row_col())
    &&& forall|i: int| 0 <= i < puzzle.cabooses@.len() ==> puzzle.in_grid((#[trigger] puzzle.cabooses@[i]).row_col())
    &&& forall|p: Pos| #[trigger] sol.contains_key(p) ==> puzzle.in_grid(p)
}

// ── Executable drawing ──────────────────────────────────────────────────────

proof fn lemma_decimal_short(n: nat)
    requires
        n < 1000,
    ensures
        1 <= decimal(n).len() <= 3,
{
    if n >= 10 {
        if n >= 100 {
            assert(decimal(n / 10 / 10).len() == 1);
        }
        assert(decimal(n / 10).len() <= 2);
    }
}

proof fn lemma_label_short(puzzle: &Puzzle, sol: Map<Pos, TrackType>, p: Pos)
    ensures
        1 <= cell_label(puzzle, sol, p).len() <= 4,
{
    reveal_strlit("↑");
    reveal_strlit("↓");
    reveal_strlit("→");
    reveal_strlit("←");
    reveal_strlit("C");
    reveal_strlit(" ");
    reveal_strlit("░");
    reveal_strlit("·");
    reveal_strlit("═");
    reveal_strlit("║");
    reveal_strlit("╚");
    reveal_strlit("╝");
    reveal_strlit("╔");
    reveal_strlit("╗");
    reveal_strlit("╬");
    reveal_strlit("╦");
    reveal_strlit("╩");
    reveal_strlit("╠");
    reveal_strlit("╣");
    reveal_strlit("┼");
    match last_car_at(puzzle.cars@, p) {
        Some(c) => lemma_decimal_short(c.id as nat),
        None => match last_caboose_at(puzzle.cabooses@, p) {
            Some(cab) => lemma_decimal_short(cab.color as nat),
            None => {},
        },
    }
}

proof fn lemma_width_short(puzzle: &Puzzle, sol: Map<Pos, TrackType>, c: int, k: int)
    ensures
        max_label_len(puzzle, sol, c, k) <= 4,
    decreases k,
{
    if k > 0 {
        lemma_width_short(puzzle, sol, c, k - 1);
        lemma_label_short(puzzle, sol, ((k - 1) as usize, c as usize));
    }
}

proof fn lemma_widths_sum(puzzle: &Puzzle, sol: Map<Pos, TrackType>, k: int)
    requires
        k >= 0,
    ensures
        widths_sum(puzzle, sol, k) <= 4 * k,
    decreases k,
{
    if k > 0 {
        lemma_widths_sum(puzzle, sol, k - 1);
        lemma_width_short(puzzle, sol, k - 1, puzzle.rows as int);
    }
}

fn arrow_str(d: Direction) -> (r: &'static str)
    ensures
        r@ == arrow(d),
{
    match d {
        Direction::North => "↑",
        Direction::South => "↓",
        Direction::East => "→",
        Direction::West => "←",
    }
}

/// The last car in the list that starts at `p`.
fn find_last_car(cars: &Vec<Car>, p: Pos) -> (r: Option<Car>)
    ensures
        r == last_car_at(cars@, p),
{
    let mut k: usize = cars.len();
    assert(cars@.take(k as int) == cars@);
    while k > 0
        invariant
            k <= cars@.len(),
            last_car_at(cars@, p) == last_car_at(cars@.take(k as int), p),
        decreases k,
    {
        let c = cars[k - 1];
        assert(cars@.take(k as int).last() == c);
        assert(cars@.take(k as int).drop_last() == cars@.take(k - 1));
        if c.row == p.0 && c.col == p.1 {
            return Some(c);
        }
        k = k - 1;
    }
    None
}

fn find_last_caboose(cabs: &Vec<Caboose>, p: Pos) -> (r: Option<Caboose>)
    ensures
        r == last_caboose_at(cabs@, p),
{
    let mut k: usize = cabs.len();
    assert(cabs@.take(k as int) == cabs@);
    while k > 0
        invariant
            k <= cabs@.len(),
            last_caboose_at(cabs@, p) == last_caboose_at(cabs@.take(k as int), p),
        decreases k,
    {
        let c = cabs[k - 1];
        assert(cabs@.take(k as int).last() == c);
        assert(cabs@.take(k as int).drop_last() == cabs@.take(k - 1));
        if c.row == p.0 && c.col == p.1 {
            return Some(c);
        }
        k = k - 1;
    }
    None
}

/// How the cell at `p` shows.
fn label_of(puzzle: &Puzzle, sol: &PosMap<TrackType>, p: Pos) -> (r: String)
    requires
        puzzle.wf(),
        puzzle.in_grid(p),
    ensures
        r@ == cell_label(puzzle, sol@, p),
{
    proof {
        assert(puzzle.cars@.take(puzzle.cars@.len() as int) == puzzle.cars@);
    }
    if let Some(c) = find_last_car(&puzzle.cars, p) {
        let mut s = string_from_str(arrow_str(c.dir));
        push_decimal(&mut s, c.id as usize);
        return s;
    }
    if let Some(cab) = find_last_caboose(&puzzle.cabooses, p) {
        let mut s = string_from_str("C");
        push_decimal(&mut s, cab.color as usize);
        return s;
    }
    if let Some(t) = sol.get(p) {
        return string_from_str(t.display_char());
    }
    match &puzzle.grid[p.0][p.1] {
        CellKind::Wall => string_from_str(" "),
        CellKind::Placeable => string_from_str("░"),
        CellKind::Fixed(t) => string_from_str(t.display_char()),
        CellKind::Tunnel(l) => {
            let mut s = string_from_str("T");
            push_char(&mut s, *l);
            proof {
                reveal_strlit("T");
            }
            s
        },
        CellKind::Terminal => string_from_str("·"),
    }
}

/// Display width of a string: its number of characters.
pub fn visible_len(s: &str) -> (r: usize)
    ensures
        r == s@.len(),
{
    chars_of(s).len()
}

fn push_repeat(s: &mut String, ch: char, n: usize)
    ensures
        final(s)@ == old(s)@ + repeat(ch, n as nat),
{
    let mut i: usize = 0;
    while i < n
        invariant
            i <= n,
            s@ == old(s)@ + repeat(ch, i as nat),
        decreases n - i,
    {
        push_char(s, ch);
        assert(repeat(ch, (i + 1) as nat) == repeat(ch, i as nat).push(ch));
        i = i + 1;
    }
}

/// The board of a puzzle with the given placements, as lines of text.
pub fn render_board(puzzle: &Puzzle, sol: &PosMap<TrackType>) -> (r: Vec<String>)
    requires
        drawable(puzzle, sol@),
    ensures
        r@.len() == board(puzzle, sol@).len(),
        forall|i: int| 0 <= i < r@.len() ==> (#[trigger] r@[i])@ == board(puzzle, sol@)[i],
{
    let rows = puzzle.rows;
    let cols = puzzle.cols;
    let ghost sl = sol@;
    // Labels, row by row.
    let mut labels: Vec<Vec<String>> = Vec::new();
    let mut r: usize = 0;
    while r < rows
        invariant
            drawable(puzzle, sl),
            sl == sol@,
            rows == puzzle.rows,
            cols == puzzle.cols,
            r <= rows,
            labels@.len() == r,
            forall|i: int, j: int| 0 <= i < r && 0 <= j < cols ==> (#[trigger] labels@[i]@[j])@ == cell_label(puzzle, sl, (i as usize, j as usize)),
            forall|i: int| 0 <= i < r ==> (#[trigger] labels@[i])@.len() == cols,
        decreases rows - r,
    {
        let mut line: Vec<String> = Vec::new();
        let mut c: usize = 0;
        while c < cols
            invariant
                drawable(puzzle, sl),
                sl == sol@,
                rows == puzzle.rows,
                cols == puzzle.cols,
                r < rows,
                c <= cols,
                line@.len() == c,
                forall|j: int| 0 <= j < c ==> (#[trigger] line@[j])@ == cell_label(puzzle, sl, (r, j as usize)),
            decreases cols - c,
        {
            line.push(label_of(puzzle, sol, (r, c)));
            c = c + 1;
        }
        labels.push(line);
        r = r + 1;
    }
    // Column widths.
    let mut widths: Vec<usize> = Vec::new();
    let mut c: usize = 0;
    while c < cols
        invariant
            drawable(puzzle, sl),
            rows == puzzle.rows,
            cols == puzzle.cols,
            labels@.len() == rows,
            forall|i: int, j: int| 0 <= i < rows && 0 <= j < cols ==> (#[trigger] labels@[i]@[j])@ == cell_label(puzzle, sl, (i as usize, j as usize)),
            forall|i: int| 0 <= i < rows ==> (#[trigger] labels@[i])@.len() == cols,
            c <= cols,
            widths@.len() == c,
            forall|j: int| 0 <= j < c ==> #[trigger] widths@[j] == col_width(puzzle, sl, j),
        decreases cols - c,
    {
        let mut w: usize = 0;
        let mut k: usize = 0;
        while k < rows
            invariant
                rows == puzzle.rows,
                cols == puzzle.cols,
                c < cols,
                labels@.len() == rows,
                forall|i: int, j: int| 0 <= i < rows && 0 <= j < cols ==> (#[trigger] labels@[i]@[j])@ == cell_label(puzzle, sl, (i as usize, j as usize)),
                forall|i: int| 0 <= i < rows ==> (#[trigger] labels@[i])@.len() == cols,
                k <= rows,
                w == max_label_len(puzzle, sl, c as int, k as int),
            decreases rows - k,
        {
            let len = visible_len(labels[k][c].as_str());
            if len > w {
                w = len;
            }
            k = k + 1;
        }
        if rows == 0 {
            w = 1;
        }
        widths.push(w);
        c = c + 1;
    }
    // Total width.
    let mut sum: usize = 0;
    let mut c: usize = 0;
    proof {
        lemma_widths_sum(puzzle, sl, cols as int);
    }
    while c < cols
        invariant
            drawable(puzzle, sl),
            cols == puzzle.cols,
            rows == puzzle.rows,
            widths@.len() == cols,
            forall|j: int| 0 <= j < cols ==> #[trigger] widths@[j] == col_width(puzzle, sl, j),
            c <= cols,
            sum == widths_sum(puzzle, sl, c as int),
            widths_sum(puzzle, sl, cols as int) <= 4 * cols,
        decreases cols - c,
    {
        proof {
            lemma_widths_sum(puzzle, sl, c as int);
            lemma_width_short(puzzle, sl, c as int, rows as int);
        }
        sum = sum + widths[c];
        c = c + 1;
    }
    let total = sum + cols * 3 + 1;
    let mut out: Vec<String> = Vec::new();
    let mut top = string_from_str("┌");
    push_repeat(&mut top, '─', total - 2);
    push_str(&mut top, "┐");
    out.push(top);
    // Rows and separators.
    let mut sep = string_from_str("├");
    let mut c: usize = 0;
    while c < cols
        invariant
            drawable(puzzle, sl),
            cols == puzzle.cols,
            widths@.len() == cols,
            forall|j: int| 0 <= j < cols ==> #[trigger] widths@[j] == col_width(puzzle, sl, j),
            c <= cols,
            sep@ == "├"@ + sep_segments(puzzle, sl, c as int),
        decreases cols - c,
    {
        proof {
            lemma_width_short(puzzle, sl, c as int, puzzle.rows as int);
        }
        push_repeat(&mut sep, '─', widths[c] + 2);
        if c < cols - 1 {
            push_str(&mut sep, "┼");
        }
        c = c + 1;
    }
    push_str(&mut sep, "┤");
    let mut r: usize = 0;
    while r < rows
        invariant
            drawable(puzzle, sl),
            rows == puzzle.rows,
            cols == puzzle.cols,
            labels@.len() == rows,
            forall|i: int, j: int| 0 <= i < rows && 0 <= j < cols ==> (#[trigger] labels@[i]@[j])@ == cell_label(puzzle, sl, (i as usize, j as usize)),
            forall|i: int| 0 <= i < rows ==> (#[trigger] labels@[i])@.len() == cols,
            widths@.len() == cols,
            forall|j: int| 0 <= j < cols ==> #[trigger] widths@[j] == col_width(puzzle, sl, j),
            sep@ == sep_line(puzzle, sl),
            r <= rows,
            out@.len() == 1 + body_lines(puzzle, sl, r as int).len(),
            out@[0]@ == top_line(puzzle, sl),
            forall|i: int| 0 <= i < body_lines(puzzle, sl, r as int).len() ==> (#[trigger] out@[i + 1])@ == body_lines(puzzle, sl, r as int)[i],
        decreases rows - r,
    {
        let mut line = string_from_str("│");
        let mut c: usize = 0;
        while c < cols
            invariant
                rows == puzzle.rows,
                cols == puzzle.cols,
                r < rows,
                labels@.len() == rows,
                forall|i: int, j: int| 0 <= i < rows && 0 <= j < cols ==> (#[trigger] labels@[i]@[j])@ == cell_label(puzzle, sl, (i as usize, j as usize)),
                forall|i: int| 0 <= i < rows ==> (#[trigger] labels@[i])@.len() == cols,
                widths@.len() == cols,
                forall|j: int| 0 <= j < cols ==> #[trigger] widths@[j] == col_width(puzzle, sl, j),
                c <= cols,
                line@ == "│"@ + row_segments(puzzle, sl, r as int, c as int),
            decreases cols - c,
        {
            let cell = &labels[r][c];
            let len = visible_len(cell.as_str());
            let pad = if widths[c] >= len { widths[c] - len } else { 0 };
            push_str(&mut line, " ");
            push_str(&mut line, cell.as_str());
            push_repeat(&mut line, ' ', pad);
            push_str(&mut line, " │");
            c = c + 1;
        }
        let ghost before = out@;
        out.push(line);
        if r < rows - 1 {
            let s2 = string_from_str(sep.as_str());
            out.push(s2);
        }
        r = r + 1;
    }
    let mut bottom = string_from_str("└");
    push_repeat(&mut bottom, '─', total - 2);
    push_str(&mut bottom, "┘");
    let ghost body = body_lines(puzzle, sl, rows as int);
    let ghost b = board(puzzle, sl);
    out.push(bottom);
    proof {
        assert(b.len() == out@.len());
        assert forall|i: int| 0 <= i < out@.len() implies (#[trigger] out@[i])@ == b[i] by {
            if i == 0 {
            } else if i <= body.len() {
                assert(b[i] == body[i - 1]);
                assert(out@[(i - 1) + 1] == out@[i]);
            } else {
                assert(b[i] == bottom_line(puzzle, sl));
            }
        }
    }
    out
}

fn pos_less(a: Pos, b: Pos) -> (r: bool)
    ensures
        r == pos_lt(a, b),
{
    a.0 < b.0 || (a.0 == b.0 && a.1 < b.1)
}

/// The placed pieces in row-major order of their cells.
pub fn placed_pieces(sol: &PosMap<TrackType>) -> (r: Vec<(Pos, TrackType)>)
    ensures
        map_of(r@) == sol@,
        forall|i: int, j: int| 0 <= i < j < r@.len() ==> pos_lt(#[trigger] r@[i].0, #[trigger] r@[j].0),
{
    let items = sol.to_vec();
    let mut out: Vec<(Pos, TrackType)> = Vec::new();
    let mut i: usize = 0;
    proof {
        assert(map_of(out@) =~= map_of(items@.take(0)));
    }
    while i < items.len()
        invariant
            i <= items@.len(),
            keys_distinct(items@),
            map_of(items@) == sol@,
            keys_distinct(out@),
            out@.len() == i,
            map_of(out@) == map_of(items@.take(i as int)),
            forall|k: int| 0 <= k < out@.len() ==> exists|m: int| 0 <= m < i && items@[m] == #[trigger] out@[k],
            forall|a: int, b: int| 0 <= a < b < out@.len() ==> pos_lt(#[trigger] out@[a].0, #[trigger] out@[b].0),
        decreases items@.len() - i,
    {
        let x = items[i];
        let mut j: usize = out.len();
        while j > 0 && pos_less(x.0, out[j - 1].0)
            invariant
                j <= out@.len(),
                forall|k: int| j <= k < out@.len() ==> pos_lt(x.0, #[trigger] out@[k].0),
            decreases j,
        {
            j = j - 1;
        }
        let ghost before = out@;
        proof {
            assert forall|k: int| 0 <= k < before.len() implies before[k].0 != x.0 by {
                let m = choose|m: int| 0 <= m < i && items@[m] == before[k];
                assert(items@[m].0 != items@[i as int].0);
            }
        }
        out.insert(j, x);
        proof {
            let t = out@;
            assert(t == before.insert(j as int, x));
            assert forall|a: int, b: int| 0 <= a < b < t.len() implies pos_lt(#[trigger] t[a].0, #[trigger] t[b].0) by {
                if b < j {
                    assert(t[a] == before[a] && t[b] == before[b]);
                } else if b == j {
                    assert(t[a] == before[a]);
                    if a < j - 1 {
                        assert(pos_lt(before[a].0, before[j - 1].0));
                    }
                    assert(!pos_lt(x.0, before[j - 1].0));
                    assert(before[j - 1].0 != x.0);
                } else if a == j {
                    assert(t[b] == before[b - 1]);
                } else if a < j {
                    assert(t[a] == before[a] && t[b] == before[b - 1]);
                } else {
                    assert(t[a] == before[a - 1] && t[b] == before[b - 1]);
                }
            }
            assert forall|a: int, b: int| 0 <= a < t.len() && 0 <= b < t.len() && a != b implies t[a].0 != t[b].0 by {
                if a < b {
                    assert(pos_lt(t[a].0, t[b].0));
                } else {
                    assert(pos_lt(t[b].0, t[a].0));
                }
            }
            assert forall|k: int| 0 <= k < t.len() implies exists|m: int| 0 <= m < i + 1 && items@[m] == #[trigger] t[k] by {
                if k < j {
                    assert(t[k] == before[k]);
                    let m = choose|m: int| 0 <= m < i && items@[m] == before[k];
                } else if k == j {
                    assert(items@[i as int] == t[k]);
                } else {
                    assert(t[k] == before[k - 1]);
                    let m = choose|m: int| 0 <= m < i && items@[m] == before[k - 1];
                }
            }
            lemma_map_of_insert_at(before, j as int, x);
            lemma_map_of_take_push(items@, i as int);
        }
        i = i + 1;
    }
    proof {
        assert(items@.take(items@.len() as int) == items@);
    }
    out
}

/// Inserting an entry with a new key anywhere in the list adds it to the map.
proof fn lemma_map_of_insert_at(s: Seq<(Pos, TrackType)>, j: int, x: (Pos, TrackType))
    requires
        0 <= j <= s.len(),
        keys_distinct(s),
        forall|k: int| 0 <= k < s.len() ==> s[k].0 != x.0,
    ensures
        map_of(s.insert(j, x)) == map_of(s).insert(x.0, x.1),
{
    let t = s.insert(j, x);
    assert forall|a: int, b: int| 0 <= a < t.len() && 0 <= b < t.len() && a != b implies t[a].0 != t[b].0 by {
        let a2 = if a < j { a } else { a - 1 };
        let b2 = if b < j { b } else { b - 1 };
        if a != j && b != j {
            assert(t[a] == s[a2] && t[b] == s[b2]);
        } else if a == j {
            assert(t[b] == s[b2]);
        } else {
            assert(t[a] == s[a2]);
        }
    }
    assert forall|q: Pos| #[trigger] map_of(t).contains_key(q) <==> map_of(s).insert(x.0, x.1).contains_key(q) by {
        if crate::posmap::has_key(t, q) {
            let k = crate::posmap::key_index(t, q);
            if k < j {
                assert(s[k] == t[k]);
            } else if k > j {
                assert(s[k - 1] == t[k]);
            }
        }
        if crate::posmap::has_key(s, q) {
            let k = crate::posmap::key_index(s, q);
            if k < j {
                assert(t[k] == s[k]);
            } else {
                assert(t[k + 1] == s[k]);
            }
        }
        if q == x.0 {
            assert(t[j] == x);
        }
    }
    assert forall|q: Pos| #[trigger] map_of(t).contains_key(q) implies map_of(t)[q] == map_of(s).insert(x.0, x.1)[q] by {
        let k = crate::posmap::key_index(t, q);
        crate::posmap::lemma_map_of_index(t, k);
        if k < j {
            assert(s[k] == t[k]);
            crate::posmap::lemma_map_of_index(s, k);
        } else if k > j {
            assert(s[k - 1] == t[k]);
            crate::posmap::lemma_map_of_index(s, k - 1);
        }
    }
    assert(map_of(t) =~= map_of(s).insert(x.0, x.1));
}

/// Taking one more entry of a list with distinct keys adds that entry to the map.
proof fn lemma_map_of_take_push(s: Seq<(Pos, TrackType)>, i: int)
    requires
        0 <= i < s.len(),
        keys_distinct(s),
    ensures
        map_of(s.take(i + 1)) == map_of(s.take(i)).insert(s[i].0, s[i].1),
{
    let a = s.take(i);
    assert(s.take(i + 1) == a.insert(i, s[i]));
    assert(keys_distinct(a));
    lemma_map_of_insert_at(a, i, s[i]);
}

/// Whether a board can be drawn for the puzzle and placements (`drawable`).
pub fn check_drawable(puzzle: &Puzzle, sol: &PosMap<TrackType>) -> (r: bool)
    ensures
        r == drawable(puzzle, sol@),
{
    if !crate::simulation::check_wf(puzzle) {
        return false;
    }
    if puzzle.cols < 1 || puzzle.cols > usize::MAX / 8 {
        return false;
    }
    let mut i: usize = 0;
    while i < puzzle.cars.len()
        invariant
            i <= puzzle.cars@.len(),
            forall|k: int| 0 <= k < i ==> puzzle.in_grid((#[trigger] puzzle.cars@[k]).row_col()),
        decreases puzzle.cars@.len() - i,
    {
        if !(puzzle.cars[i].row < puzzle.rows && puzzle.cars[i].col < puzzle.cols) {
            assert(!puzzle.in_grid(puzzle.cars@[i as int].row_col()));
            return false;
        }
        i = i + 1;
    }
    let mut j: usize = 0;
    while j < puzzle.cabooses.len()
        invariant
            j <= puzzle.cabooses@.len(),
            forall|k: int| 0 <= k < j ==> puzzle.in_grid((#[trigger] puzzle.cabooses@[k]).row_col()),
        decreases puzzle.cabooses@.len() - j,
    {
        if !(puzzle.cabooses[j].row < puzzle.rows && puzzle.cabooses[j].col < puzzle.cols) {
            assert(!puzzle.in_grid(puzzle.cabooses@[j as int].row_col()));
            return false;
        }
        j = j + 1;
    }
    let items = sol.to_vec();
    let mut k: usize = 0;
    while k < items.len()
        invariant
            k <= items@.len(),
            keys_distinct(items@),
            map_of(items@) == sol@,
            forall|m: int| 0 <= m < k ==> puzzle.in_grid((#[trigger] items@[m]).0),
        decreases items@.len() - k,
    {
        let p = items[k].0;
        if !(p.0 < puzzle.rows && p.1 < puzzle.cols) {
            proof {
                crate::posmap::lemma_map_of_index(items@, k as int);
            }
            return false;
        }
        k = k + 1;
    }
    proof {
        assert forall|p: Pos| #[trigger] sol@.contains_key(p) implies puzzle.in_grid(p) by {
            let m = crate::posmap::key_index(items@, p);
        }
    }
    true
}

/// The name of a track type as the solution summary shows it.
pub fn track_name(t: TrackType) -> (r: &'static str)
    ensures
        r@ == spec_track_name(t),
{
    match t {
        TrackType::StraightH => "StraightH (═)",
        TrackType::StraightV => "StraightV (║)",
        TrackType::CurveNE => "CurveNE (╚)",
        TrackType::CurveNW => "CurveNW (╝)",
        TrackType::CurveSE => "CurveSE (╔)",
        TrackType::CurveSW => "CurveSW (╗)",
        TrackType::Crossing => "Crossing (╬)",
        TrackType::Switch(_) => "Switch",
    }
}

pub open spec fn spec_track_name(t: TrackType) -> Seq<char> {
    match t {
        TrackType::StraightH => "StraightH (═)"@,
        TrackType::StraightV => "StraightV (║)"@,
        TrackType::CurveNE => "CurveNE (╚)"@,
        TrackType::CurveNW => "CurveNW (╝)"@,
        TrackType::CurveSE => "CurveSE (╔)"@,
        TrackType::CurveSW => "CurveSW (╗)"@,
        TrackType::Crossing => "Crossing (╬)"@,
        TrackType::Switch(_) => "Switch"@,
    }
}


// ── Summary lines ───────────────────────────────────────────────────────────

/// The heading line of a puzzle: its size.
pub open spec fn spec_size_line(puzzle: &Puzzle) -> Seq<char> {
    "Puzzle  ("@ + decimal(puzzle.cols as nat) + " cols × "@ + decimal(puzzle.rows as nat) + " rows)"@
}

/// The line that gives the size of a puzzle.
pub fn size_line(puzzle: &Puzzle) -> (r: String)
    ensures
        r@ == spec_size_line(puzzle),
{
    let mut s = string_from_str("Puzzle  (");
    push_decimal(&mut s, puzzle.cols);
    push_str(&mut s, " cols × ");
    push_decimal(&mut s, puzzle.rows);
    push_str(&mut s, " rows)");
    s
}

pub open spec fn spec_inventory_line(inv: Inventory) -> Seq<char> {
    "Inventory: "@ + decimal(inv.straight as nat) + " straight, "@ + decimal(inv.curve as nat) + " curve, "@
        + decimal(inv.crossing as nat) + " crossing, "@ + decimal(inv.switch as nat) + " switch"@
}

/// The line that lists the pieces in an inventory.
pub fn inventory_line(inv: &Inventory) -> (r: String)
    ensures
        r@ == spec_inventory_line(*inv),
{
    let mut s = string_from_str("Inventory: ");
    push_decimal(&mut s, inv.straight);
    push_str(&mut s, " straight, ");
    push_decimal(&mut s, inv.curve);
    push_str(&mut s, " curve, ");
    push_decimal(&mut s, inv.crossing);
    push_str(&mut s, " crossing, ");
    push_decimal(&mut s, inv.switch);
    push_str(&mut s, " switch");
    s
}

pub open spec fn spec_counts_line(puzzle: &Puzzle) -> Seq<char> {
    "Cars: "@ + decimal(puzzle.cars@.len()) + " | Cabooses: "@ + decimal(puzzle.cabooses@.len())
        + " | Tunnels: "@ + decimal(puzzle.tunnels@.len())
}

/// The line that counts the cars, cabooses and tunnels of a puzzle.
pub fn counts_line(puzzle: &Puzzle) -> (r: String)
    ensures
        r@ == spec_counts_line(puzzle),
{
    let mut s = string_from_str("Cars: ");
    push_decimal(&mut s, puzzle.cars.len());
    push_str(&mut s, " | Cabooses: ");
    push_decimal(&mut s, puzzle.cabooses.len());
    push_str(&mut s, " | Tunnels: ");
    push_decimal(&mut s, puzzle.tunnels.len());
    s
}

/// The summary line of one placed piece: its cell and the name of its track.
pub open spec fn piece_line(p: Pos, t: TrackType) -> Seq<char> {
    "  ("@ + decimal(p.0 as nat) + ","@ + decimal(p.1 as nat) + "): "@ + spec_track_name(t)
}

/// The summary of the placed pieces, given in the order they are listed.
pub open spec fn spec_pieces_summary(pieces: Seq<(Pos, TrackType)>) -> Seq<Seq<char>> {
    if pieces.len() == 0 {
        seq!["No pieces were needed."@]
    } else {
        seq!["Placed "@ + decimal(pieces.len()) + " piece(s):"@]
            + pieces.map_values(|x: (Pos, TrackType)| piece_line(x.0, x.1))
    }
}

/// The lines that summarise the placed pieces: a count and one line per piece, or a note
/// that none were needed.
pub fn pieces_summary(pieces: &Vec<(Pos, TrackType)>) -> (r: Vec<String>)
    ensures
        r@.len() == spec_pieces_summary(pieces@).len(),
        forall|i: int| 0 <= i < r@.len() ==> (#[trigger] r@[i])@ == spec_pieces_summary(pieces@)[i],
{
    let mut out: Vec<String> = Vec::new();
    if pieces.len() == 0 {
        out.push(string_from_str("No pieces were needed."));
        return out;
    }
    let mut head = string_from_str("Placed ");
    push_decimal(&mut head, pieces.len());
    push_str(&mut head, " piece(s):");
    out.push(head);
    let ghost want = spec_pieces_summary(pieces@);
    let mut i: usize = 0;
    while i < pieces.len()
        invariant
            i <= pieces@.len(),
            pieces@.len() > 0,
            want == spec_pieces_summary(pieces@),
            out@.len() == i + 1,
            forall|k: int| 0 <= k < out@.len() ==> (#[trigger] out@[k])@ == want[k],
        decreases pieces@.len() - i,
    {
        let (p, t) = pieces[i];
        let mut line = string_from_str("  (");
        push_decimal(&mut line, p.0);
        push_str(&mut line, ",");
        push_decimal(&mut line, p.1);
        push_str(&mut line, "): ");
        push_str(&mut line, track_name(t));
        assert(want[i + 1] == piece_line(pieces@[i as int].0, pieces@[i as int].1));
        out.push(line);
        i = i + 1;
    }
    out
}


// ── What the drawing and the summary say ───────────────────────────────────

/// A car's arrow points the way it travels: up the screen for a step to the row above,
/// down for the row below, right and left for the next and previous column.
pub proof fn law_arrow_points_along_travel(d: Direction)
    ensures
        d.spec_delta() == (-1i32, 0i32) ==> arrow(d) == "↑"@,
        d.spec_delta() == (1i32, 0i32) ==> arrow(d) == "↓"@,
        d.spec_delta() == (0i32, 1i32) ==> arrow(d) == "→"@,
        d.spec_delta() == (0i32, -1i32) ==> arrow(d) == "←"@,
{
}

/// Different directions get different arrows.
pub proof fn law_arrows_distinct(d1: Direction, d2: Direction)
    requires
        d1 != d2,
    ensures
        arrow(d1) != arrow(d2),
{
    reveal_strlit("↑");
    reveal_strlit("↓");
    reveal_strlit("→");
    reveal_strlit("←");
    assert(arrow(d1)[0] != arrow(d2)[0]);
}

/// The summary name of a piece is its kind, then what tells its orientation, then the
/// character that draws it in brackets: a straight's cell code, a curve's two open sides
/// (north or south first), nothing for a crossing; a switch is named just `Switch`.
pub proof fn law_track_name_parts(t: TrackType)
    ensures
        (t is StraightH || t is StraightV) ==> exists|code: Seq<char>| #[trigger] TrackType::spec_from_code(code) == Some(t)
            && spec_track_name(t) == "Straight"@ + code + " ("@ + t.spec_display_char() + ")"@,
        (t is CurveNE || t is CurveNW || t is CurveSE || t is CurveSW) ==> spec_track_name(t) == "Curve"@ + seq![
            t.spec_open_sides()[0].letter(),
            t.spec_open_sides()[1].letter(),
        ] + " ("@ + t.spec_display_char() + ")"@,
        t is Crossing ==> spec_track_name(t) == "Crossing ("@ + t.spec_display_char() + ")"@,
        t is Switch ==> spec_track_name(t) == "Switch"@,
{
    reveal_strlit("Straight");
    reveal_strlit("Curve");
    reveal_strlit("Crossing (");
    reveal_strlit(" (");
    reveal_strlit(")");
    reveal_strlit("H");
    reveal_strlit("V");
    reveal_strlit("NE");
    reveal_strlit("NW");
    reveal_strlit("SE");
    reveal_strlit("SW");
    reveal_strlit("═");
    reveal_strlit("║");
    reveal_strlit("╚");
    reveal_strlit("╝");
    reveal_strlit("╔");
    reveal_strlit("╗");
    reveal_strlit("╬");
    reveal_strlit("StraightH (═)");
    reveal_strlit("StraightV (║)");
    reveal_strlit("CurveNE (╚)");
    reveal_strlit("CurveNW (╝)");
    reveal_strlit("CurveSE (╔)");
    reveal_strlit("CurveSW (╗)");
    reveal_strlit("Crossing (╬)");
    match t {
        TrackType::StraightH => {
            assert(TrackType::spec_from_code("H"@) == Some(t));
            assert(spec_track_name(t) =~= "Straight"@ + "H"@ + " ("@ + t.spec_display_char() + ")"@);
        },
        TrackType::StraightV => {
            assert("V"@[0] != "H"@[0]);
            assert(TrackType::spec_from_code("V"@) == Some(t));
            assert(spec_track_name(t) =~= "Straight"@ + "V"@ + " ("@ + t.spec_display_char() + ")"@);
        },
        TrackType::CurveNE | TrackType::CurveNW | TrackType::CurveSE | TrackType::CurveSW => {
            assert(spec_track_name(t) =~= "Curve"@ + seq![t.spec_open_sides()[0].letter(), t.spec_open_sides()[1].letter()]
                + " ("@ + t.spec_display_char() + ")"@);
        },
        TrackType::Crossing => {
            assert(spec_track_name(t) =~= "Crossing ("@ + t.spec_display_char() + ")"@);
        },
        TrackType::Switch(_) => {},
    }
}

} // verus!
