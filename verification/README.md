# bevy_flowfield_tiles_plugin (verified core)

Flowfield pathfinding over a world split into sectors of 10x10 cells, written
in Verus. The library in `src/` holds the data structures and algorithms with
their contracts and proofs:

- `utilities`, `sectors`, `dimensions`: compass directions, sector ids, map
  dimensions and stepping between cells and sectors.
- `fields`: cost fields, the line of sight and integrated cost passes of the
  integration field, flow fields, the raster line used by line of sight, the
  breadth-first search over a field and the graph of a field's cells.
- `sector_cost`: the cost fields of every sector and their scaling by actor
  size.
- `portal`, `sector_portals`: portal windows along sector boundaries, the
  node/edge portal graph and the graph of windows used to find routes.
- `route`, `flowfield_cache`: route steps and the cache of built flow fields.
- `tiles`: the pathing data of a whole world built together: dimensions,
  sector cost fields, portals with their graph, and the flow field cache.
- `graph`: the calls into `petgraph`, each with the contract the library
  relies on.

`app/` holds what Verus does not check: world geometry in floating point,
loading cost fields from `.ron` files and heightmap images, and serde copies
of the library's types. `tests/` holds the tests.
