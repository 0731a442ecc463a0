# battlesnake

The move engine of a Battlesnake server, written in Verus: the board
simulation, flood fills, safe-move analysis and the move decisions carry
contracts that Verus proves.

Layout:

- `src/types.rs`: coordinates, directions, game modes and the API game state.
- `src/board.rs`: the compact simulation board, its invariant, cell lookups and
  safe moves.
- `src/setup.rs`: building the board from a game state, and the check that a
  state is within the supported limits.
- `src/step.rs`: one simulated turn (moves, eating, damage, head-to-head and body
  collisions), with laws about what a turn does.
- `src/flood.rs`: reachable area from a point, and the Voronoi territory search
  of all snakes.
- `src/logic.rs`: the decisions taken without a game-tree search.
- `src/search.rs`: time checks, move ordering and the opponent model used by the
  search.
- `app/`: the HTTP server, the JSON types, the position evaluation and the
  alpha-beta/paranoid search, which work on floating-point scores.
