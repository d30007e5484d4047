# sim

A light-cycle game. Cycles race across an integer grid, each leaving a trail
of axis-aligned walls; a cycle crashes when it leaves the arena or moves onto
any wall.

- `src/` is the verified library:
  - `lib.rs`: headings, turns and grid points;
  - `wall.rs`: trail segments and which points they hold;
  - `cycle.rs`: a cycle, its queued turns and its trail;
  - `arena.rs`: the arena and its tick, with the laws that a tick keeps
    cycles inside the arena and trails sound;
  - `progress.rs`: the proof that every game ends;
  - `render.rs`: the terminal picture of an arena or sketch;
  - `player.rs`, `game.rs`: players and the terminal game's decisions.
- `app/` runs the terminal game (default) and the network server
  (`server` argument) of the free-moving game, whose `f32` simulation lives
  there.
- `tests/` exercises the library on concrete games.
