# oxscape

Hydrological algorithms on grids, verified with Verus: grid indexing and
tile skirts, depression filling of whole and tiled elevation models,
watershed spill graphs, flat resolution, and topological flow orders for
single and multiple flow directions.

Elevations are handled as `u64` order keys (`elev`): the keys sort as the
IEEE-754 total order of the floats they stand for, and the algorithms only
compare, copy and take maxima of elevations.

## Layout

- `src/` — the verified library.
  - `grid`, `array_2d`, `tile`, `error`, `text`: grid shape, neighbour
    offsets, edges and skirts, tiles, errors.
  - `elev`: float bit patterns to order keys and back.
  - `queue`: a binary max-heap with a multiset view.
  - `depfill`: Zhou (2016) priority-flood filling with watershed labels,
    spill graphs, filling of the graph of all tiles' watersheds, and the
    grids of tiles that feed it.
  - `priority_flood`: priority-flood filling after Wei et al. (2018).
  - `flats`, `resolve_flats`: breadth-first resolution of flats.
  - `sflow`, `mflow`, `fastscape`: donors and level orders for single and
    multiple flow directions.
  - `level_sums`: level-by-level array updates.
- `tests/` — tests of the library.
- `app/` — what works on floats or does I/O: flow metrics, flow
  accumulation and erosion, a simulation driver, the tile producer and
  consumers over channels, random numbers and grid output.
