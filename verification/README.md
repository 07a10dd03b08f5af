# game_core

The simulation core of a strategy game, written in Verus: the functions in
`src/` carry contracts that the verifier proves. The few calls into the
standard library and `rand` that Verus has no specification for stand behind
small trusted wrappers, whose contracts are stated and believed, not proved.

- `src/domain/economy`: resource maps, inventories with capacities, and the
  allocation engine that splits a stock among prioritised requests.
- `src/domain/buildings`: buildings, their staffing, demand and production
  runs (bottleneck scale, input consumption, output generation).
- `src/domain/settlement`: population needs, construction projects, the
  building manager and the settlement turn that ties them together.
- `src/domain/world_data`, `src/domain/geography`: the map, provinces,
  territory claims, elevation, moisture and biome bands.
- `src/services/algorithms`: grid helpers, a min-queue, A* search and a
  budgeted Dijkstra flood over land.
- `src/services/world_generation`: random province seeds, Voronoi
  partitioning and centroid relaxation.

Quantities that were fractions are held as integers in millionths
(elevation, moisture, efficiency, per-capita needs, satisfaction).

`app/` is the window, the noise-driven terrain generation and the rendering,
built on the library. `tests/` runs the library on concrete values.
