# mesopotamia

The lattice core of a steppe simulation — world generation on a grid of cells —
and of Driftscape, its terminal screensaver, written in Verus.

`src/` is the verified library:

- `field`, `grid`: row-major lattice addressing and the discrete cell layers.
- `wave`: multi-source breadth-first wavefronts; distances are proved to be
  shortest walk lengths, and ties go to the seed listed first.
- `river`: least-cost channel carving (Dijkstra over eight neighbours, proved
  to return a cheapest path), tributaries, oxbow basins, lake siting with
  best-candidate placement, and water-proximity rings.
- `worldgen`: the east/west river divide, rough-ground margins, stroke origins,
  and the named test maps with their oval layout and command-line lookup.
- `driftscape`: the half-block canvas, Bresenham lines, ANSI frames, and the
  screensaver's quit keys.
- `flower_tile`, `shrub_tile`, `elk::presets`, `events`, `history`, `settings`:
  tile rasters and the small tables and logs the simulation keeps.

`app/` is the unverified program around it: the screensaver's terminal loop and
scene, the floating-point parts of watershed generation (noise, channel depths,
metaball lakes, proximity falloff), and reading `usersettings.json`.

`tests/` exercises the library on concrete inputs.
