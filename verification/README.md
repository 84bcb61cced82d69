# bevy_platformer

A 2D platformer built on bevy and avian2d. The crate's library holds the
game's logic, verified with Verus; `app/` holds the bevy program around it.

- `src/tiles.rs`: the collision tiles of a level, a set of grid positions.
- `src/plates.rs`: the horizontal runs of tiles ("plates") of one grid row.
- `src/rects.rs`: stacking identical plates of consecutive rows into
  rectangles, with the open rectangles kept in bevy's `HashMap`.
- `src/collision.rs`: the collision rectangles of a whole level, and the
  proofs that they cover exactly its tiles, never overlap, stay inside the
  grid and are as tall as their plates' stacks.
- `src/input.rs`: the player's input, gathered per frame and spent per
  fixed step.
- `src/spawn.rs`: whether, and where, the player is spawned.

The program in `app/` reads the keyboard, queries the ECS, draws, runs the
physics and does the floating-point arithmetic of movement and layout,
asking the library for every decision above.
