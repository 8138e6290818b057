# resource_sim

A resource-collection simulation on a rectangular grid. Scouts wander from
the base and report the tiles around them; collectors walk to known deposits
along shortest routes over reported tiles, carry single units back, and the
base keeps the totals.

- `src/` is the verified library (Verus): the map and its generation
  (`map`), position-keyed tables (`positions`), the shared world (`world`),
  robots and their ticks (`robot`), breadth-first route finding
  (`pathfind`), how the base takes in reports (`base`), what the screen shows
  (`view`), the settings' defaults (`config`), and the calls into `rand`
  (`random`, trusted).
- `app/` is the terminal program around it: the Perlin terrain, the
  configuration file, the async robot loops and the ratatui drawing.
- `tests/` exercises the library.
