use vstd::prelude::*;
use crate::posmap::PosMap;
pub use crate::posmap::Pos;
use crate::posmap::pos_lt;
use crate::types::{Direction, Inventory, TrackType};
pub use crate::parse::{parse_cell, parse_puzzle, parse_puzzle_checked, ParseError};

verus! {

/// What is fixed (pre-placed) in a grid cell.
#[derive(Clone, Copy, Debug, PartialEq, Eq, Structural)]
pub enum CellKind {
    /// Impassable: no track can be placed here.
    Wall,
    /// Empty cell where the solver may place a track piece.
    Placeable,
    /// A pre-placed, immovable track piece.
    Fixed(TrackType),
    /// A tunnel entrance/exit labelled by a letter.
    Tunnel(char),
    /// Occupied by a train car or caboose: no track is placed here.
    Terminal,
}

/// A single train car.
#[derive(Clone, Copy, Debug)]
pub struct Car {
    /// Unique id within its color group (1, 2, 3, ...).
    pub id: u8,
    /// Color group identifier.
    pub color: u8,
    pub row: usize,
    pub col: usize,
    /// The direction the car is initially facing / moving.
    pub dir: Direction,
}

impl Car {
    pub open spec fn row_col(self) -> Pos {
        (self.row, self.col)
    }
}

/// A caboose (terminal destination for a color group).
#[derive(Clone, Copy, Debug)]
pub struct Caboose {
    pub color: u8,
    pub row: usize,
    pub col: usize,
    /// The side of the caboose cell from which trains enter.
    pub entry_side: Direction,
}

impl Caboose {
    pub open spec fn row_col(self) -> Pos {
        (self.row, self.col)
    }
}

/// A tunnel pair: a train enters `entry_pos` moving `entry_facing` and leaves
/// `exit_pos` moving `exit_facing`, and the other way round.
#[derive(Clone, Copy, Debug)]
pub struct Tunnel {
    pub label: char,
    pub entry_pos: Pos,
    pub entry_facing: Direction,
    pub exit_pos: Pos,
    pub exit_facing: Direction,
}

/// The complete puzzle description.
#[derive(Clone, Debug)]
pub struct Puzzle {
    pub rows: usize,
    pub cols: usize,
    /// `grid[row][col]`: fixed cell contents.
    pub grid: Vec<Vec<CellKind>>,
    pub cars: Vec<Car>,
    pub cabooses: Vec<Caboose>,
    pub tunnels: Vec<Tunnel>,
    pub inventory: Inventory,
}

/// The exit of the first tunnel, from index `i` on, with an end at `pos` facing `facing`.
pub open spec fn tunnel_exit_from(tunnels: Seq<Tunnel>, i: int, pos: Pos, facing: Direction) -> Option<(Pos, Direction)>
    decreases tunnels.len() - i,
{
    if i < 0 || i >= tunnels.len() {
        None
    } else {
        let t = tunnels[i];
        if t.entry_pos == pos && t.entry_facing == facing {
            Some((t.exit_pos, t.exit_facing))
        } else if t.exit_pos == pos && t.exit_facing == facing {
            Some((t.entry_pos, t.entry_facing))
        } else {
            tunnel_exit_from(tunnels, i + 1, pos, facing)
        }
    }
}

impl Puzzle {
    /// The grid holds every cell of the puzzle's size: at least `rows` rows, each of at
    /// least `cols` cells.
    pub open spec fn wf(&self) -> bool {
        &&& self.grid@.len() >= self.rows
        &&& forall|r: int| 0 <= r < self.rows ==> #[trigger] self.grid@[r]@.len() >= self.cols
    }

    /// The fixed contents of the cell at `p`.
    pub open spec fn cell(&self, p: Pos) -> CellKind {
        self.grid@[p.0 as int]@[p.1 as int]
    }

    pub open spec fn in_grid(&self, p: Pos) -> bool {
        p.0 < self.rows && p.1 < self.cols
    }

    /// The placeable cells of row `r` among its first `c` columns, left to right.
    pub open spec fn placeable_in_row(&self, r: int, c: int) -> Seq<Pos>
        decreases c,
    {
        if c <= 0 {
            Seq::empty()
        } else {
            let prev = self.placeable_in_row(r, c - 1);
            if self.grid@[r]@[c - 1] == CellKind::Placeable {
                prev.push((r as usize, (c - 1) as usize))
            } else {
                prev
            }
        }
    }

    /// The placeable cells of the first `r` rows, in row-major order.
    pub open spec fn placeable_in_rows(&self, r: int) -> Seq<Pos>
        decreases r,
    {
        if r <= 0 {
            Seq::empty()
        } else {
            self.placeable_in_rows(r - 1) + self.placeable_in_row(r - 1, self.cols as int)
        }
    }

    pub open spec fn spec_placeable_cells(&self) -> Seq<Pos> {
        self.placeable_in_rows(self.rows as int)
    }

    /// Positions of all placeable cells, in row-major order.
    pub fn placeable_cells(&self) -> (r: Vec<Pos>)
        requires
            self.wf(),
        ensures
            r@ == self.spec_placeable_cells(),
    {
        let mut cells: Vec<Pos> = Vec::new();
        let mut r: usize = 0;
        while r < self.rows
            invariant
                self.wf(),
                r <= self.rows,
                cells@ == self.placeable_in_rows(r as int),
            decreases self.rows - r,
        {
            let mut c: usize = 0;
            let ghost before = cells@;
            while c < self.cols
                invariant
                    self.wf(),
                    r < self.rows,
                    c <= self.cols,
                    before == self.placeable_in_rows(r as int),
                    cells@ == before + self.placeable_in_row(r as int, c as int),
                decreases self.cols - c,
            {
                let is_placeable = match &self.grid[r][c] {
                    CellKind::Placeable => true,
                    _ => false,
                };
                if is_placeable {
                    cells.push((r, c));
                }
                proof {
                    assert(is_placeable == (self.grid@[r as int]@[c as int] == CellKind::Placeable));
                    assert(self.placeable_in_row(r as int, c + 1) == if is_placeable {
                        self.placeable_in_row(r as int, c as int).push((r, c))
                    } else {
                        self.placeable_in_row(r as int, c as int)
                    });
                }
                c = c + 1;
            }
            r = r + 1;
        }
        cells
    }

    proof fn lemma_placeable_in_row(&self, r: int, c: int)
        requires
            self.wf(),
            0 <= r < self.rows,
            0 <= c <= self.cols,
        ensures
            self.placeable_in_row(r, c).no_duplicates(),
            forall|i: int| 0 <= i < self.placeable_in_row(r, c).len() ==> {
                let p = #[trigger] self.placeable_in_row(r, c)[i];
                p.0 == r && p.1 < c && self.cell(p) == CellKind::Placeable
            },
            forall|i: int, j: int| 0 <= i < j < self.placeable_in_row(r, c).len() ==> pos_lt(
                #[trigger] self.placeable_in_row(r, c)[i],
                #[trigger] self.placeable_in_row(r, c)[j],
            ),
        decreases c,
    {
        if c > 0 {
            self.lemma_placeable_in_row(r, c - 1);
            let prev = self.placeable_in_row(r, c - 1);
            let s = self.placeable_in_row(r, c);
            if self.grid@[r]@[c - 1] == CellKind::Placeable {
                assert(s == prev.push((r as usize, (c - 1) as usize)));
                assert forall|i: int| 0 <= i < s.len() implies {
                    let p = #[trigger] s[i];
                    p.0 == r && p.1 < c && self.cell(p) == CellKind::Placeable
                } by {
                    if i < prev.len() {
                        assert(s[i] == prev[i]);
                    }
                }
                assert forall|i: int, j: int| 0 <= i < s.len() && 0 <= j < s.len() && i != j implies s[i] != s[j] by {
                    if i < prev.len() {
                        assert(s[i] == prev[i]);
                    }
                    if j < prev.len() {
                        assert(s[j] == prev[j]);
                    }
                }
            }
        }
    }

    proof fn lemma_placeable_in_rows(&self, r: int)
        requires
            self.wf(),
            0 <= r <= self.rows,
        ensures
            self.placeable_in_rows(r).no_duplicates(),
            forall|i: int| 0 <= i < self.placeable_in_rows(r).len() ==> {
                let p = #[trigger] self.placeable_in_rows(r)[i];
                p.0 < r && p.1 < self.cols && self.cell(p) == CellKind::Placeable
            },
            forall|i: int, j: int| 0 <= i < j < self.placeable_in_rows(r).len() ==> pos_lt(
                #[trigger] self.placeable_in_rows(r)[i],
                #[trigger] self.placeable_in_rows(r)[j],
            ),
        decreases r,
    {
        if r > 0 {
            self.lemma_placeable_in_rows(r - 1);
            self.lemma_placeable_in_row(r - 1, self.cols as int);
            let a = self.placeable_in_rows(r - 1);
            let b = self.placeable_in_row(r - 1, self.cols as int);
            let s = self.placeable_in_rows(r);
            assert(s == a + b);
            assert forall|i: int| 0 <= i < s.len() implies {
                let p = #[trigger] s[i];
                p.0 < r && p.1 < self.cols && self.cell(p) == CellKind::Placeable
            } by {
                if i < a.len() {
                    assert(s[i] == a[i]);
                } else {
                    assert(s[i] == b[i - a.len()]);
                }
            }
            assert forall|i: int, j: int| 0 <= i < s.len() && 0 <= j < s.len() && i != j implies s[i] != s[j] by {
                if i < a.len() {
                    assert(s[i] == a[i]);
                } else {
                    assert(s[i] == b[i - a.len()]);
                }
                if j < a.len() {
                    assert(s[j] == a[j]);
                } else {
                    assert(s[j] == b[j - a.len()]);
                }
            }
        }
    }

    /// The placeable cells are distinct grid cells whose fixed contents are `Placeable`.
    pub proof fn lemma_placeable_cells(&self)
        requires
            self.wf(),
        ensures
            self.spec_placeable_cells().no_duplicates(),
            forall|i: int| 0 <= i < self.spec_placeable_cells().len() ==> {
                let p = #[trigger] self.spec_placeable_cells()[i];
                self.in_grid(p) && self.cell(p) == CellKind::Placeable
            },
            forall|i: int, j: int| 0 <= i < j < self.spec_placeable_cells().len() ==> pos_lt(
                #[trigger] self.spec_placeable_cells()[i],
                #[trigger] self.spec_placeable_cells()[j],
            ),
    {
        self.lemma_placeable_in_rows(self.rows as int);
    }

    /// The track at a position: a solver placement wins over a fixed piece.
    pub open spec fn spec_track_at(&self, pos: Pos, placements: Map<Pos, TrackType>) -> Option<TrackType> {
        if placements.contains_key(pos) {
            Some(placements[pos])
        } else {
            match self.cell(pos) {
                CellKind::Fixed(t) => Some(t),
                _ => None,
            }
        }
    }

    /// Lookup the effective track at a position, checking both solver placements and fixed cells.
    pub fn track_at(&self, pos: Pos, placements: &PosMap<TrackType>) -> (r: Option<TrackType>)
        requires
            placements@.contains_key(pos) || (pos.0 < self.grid@.len() && pos.1 < self.grid@[pos.0 as int]@.len()),
        ensures
            r == self.spec_track_at(pos, placements@),
    {
        if let Some(t) = placements.get(pos) {
            return Some(t);
        }
        match &self.grid[pos.0][pos.1] {
            CellKind::Fixed(t) => Some(*t),
            _ => None,
        }
    }

    /// Whether a signed (row, col) pair names a cell of the grid; the sizes are
    /// compared as `i32` values.
    pub open spec fn spec_in_bounds(&self, row: i32, col: i32) -> bool {
        row >= 0 && col >= 0 && row < (self.rows as i32) && col < (self.cols as i32)
    }

    /// Check if a position is in bounds.
    pub fn in_bounds(&self, row: i32, col: i32) -> (r: bool)
        ensures
            r == self.spec_in_bounds(row, col),
    {
        row >= 0 && col >= 0 && row < #[verifier::truncate] (self.rows as i32) && col < #[verifier::truncate] (self.cols as i32)
    }

    pub open spec fn spec_tunnel_exit(&self, pos: Pos, facing: Direction) -> Option<(Pos, Direction)> {
        tunnel_exit_from(self.tunnels@, 0, pos, facing)
    }

    /// Look up a tunnel: given an end position and facing direction, the other end.
    /// The first tunnel in the list with a matching end decides; tunnels work both ways.
    pub fn tunnel_exit(&self, pos: Pos, facing: Direction) -> (r: Option<(Pos, Direction)>)
        ensures
            r == self.spec_tunnel_exit(pos, facing),
    {
        let mut i: usize = 0;
        while i < self.tunnels.len()
            invariant
                i <= self.tunnels@.len(),
                tunnel_exit_from(self.tunnels@, 0, pos, facing) == tunnel_exit_from(self.tunnels@, i as int, pos, facing),
            decreases self.tunnels@.len() - i,
        {
            let t = &self.tunnels[i];
            if t.entry_pos.0 == pos.0 && t.entry_pos.1 == pos.1 && t.entry_facing == facing {
                return Some((t.exit_pos, t.exit_facing));
            }
            if t.exit_pos.0 == pos.0 && t.exit_pos.1 == pos.1 && t.exit_facing == facing {
                return Some((t.entry_pos, t.entry_facing));
            }
            i = i + 1;
        }
        None
    }
}

} // verus!
