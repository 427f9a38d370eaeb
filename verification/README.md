# railbound-solver, verified

A solver for Railbound track puzzles, written in Verus. A puzzle is described in a
plain-text `.rail` file (size, grid, trains, cabooses, tunnels and a piece inventory); the
solver searches for a placement of track pieces under which every train group couples in
order and reaches its caboose, and draws the board with box-drawing characters.

## Layout

- `src/` is the verified library:
  - `types.rs`: directions, switch configurations, track pieces and how they route a train;
  - `text.rs`: characters, lines, words and decimal numerals;
  - `posmap.rs`: a small map from grid positions to values;
  - `puzzle.rs`, `parse.rs`: the puzzle and the reader of the `.rail` format;
  - `simulation.rs`: the step-by-step simulation of the trains, and the partial
    simulation with which the search prunes placements that cannot win;
  - `reach.rs`: routes over the board, and the check with which the search prunes a
    placement once some car can no longer reach a caboose of its color;
  - `arrival.rs`: why that check is sound: in a winning run every car has travelled a
    route from its start to a caboose of its color;
  - `order.rs`: the order in which the search visits the cells;
  - `solver.rs`: the depth-first search: it returns a solution exactly when the puzzle
    has one;
  - `display.rs`: the board drawing and the summary lines;
  - `laws.rs`: properties of the pieces, switches, tunnels and directions.
- `tests/` runs the library on concrete puzzles.
- `app/` is the command-line program: it reads the file, prints, and calls the library.
