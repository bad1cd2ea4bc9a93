# pinguiny

The game logic of Pinguiny, a 2D wave-defence game on a hexagonal map, as a
library verified with Verus, and the Bevy program around it.

- `src/hex.rs`: axial directions, adjacency and the hexagon distance, with its
  laws (a metric; adjacent exactly at distance 1; the length of the shortest
  chain of adjacent hexagons).
- `src/grid_system.rs`: the navigation grid (cells in a flat vector, read and
  written through a map view) and the bidirectional path search, proved to
  terminate, never to panic, to return a walk from start to target through
  walkable in-bounds adjacent cells that enters no cell twice, and to return
  `None` only when no such walk exists.
- `src/frontier.rs`: the open set of the search (lowest priority first).
- `src/search_maps.rs`: the bevy hash maps the search keeps, seen through what
  they hold.
- `src/grid_navigation.rs`: walking a path, and the starting grid with its walls.
- `src/time_wizard.rs`: "MM:SS" formatting of whole seconds.
- `src/game_input.rs`, `src/game_state.rs`, `src/mob.rs`, `src/hero.rs`: camera
  key translation, the debug switch, game phases, the vault, mob sides and the
  default party and wave.
- `app/`: the Bevy program: systems, rendering, input mapping, RON loading and
  everything computed in floating point (world coordinates, camera motion,
  timers, waveforms).

Cell costs are whole numbers in the library; the program stores a float cost
as its saturating conversion to `u32`.
