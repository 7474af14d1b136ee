# trw

A terminal demo of Trapping Rain Water: a random terrain is rained on, the
water flows downhill and pools, and once the rain stops it is pinned to the
exact equilibrium the terrain can hold.

The library (`src/`) is verified with Verus:

- `grid` — drain paths and the spill level of a cell (the surface water
  settles at), with the laws that it exists, is unique, that every pool is
  exactly as high as its lowest neighbouring level, and that raising the
  terrain never lowers the water.
- `symmetry` — mirrored and transposed grids trap the same water.
- `flood`, `frontier` — the priority flood from the boundary, over a bucket
  queue keyed by height, proved to compute the spill level of every cell.
- `algorithm` — `TrappingRainWater::water_heights`, `water_depths` and
  `calculate`.
- `terrain` — the height matrix and its random generation.
- `screen` — a character-cell screen that sends only changed cells.
- `raster` — braille dots and Bresenham lines.
- `controls` — key bindings and the viewer's switches.

`app/` is the program around it: terminal input and output, and the
floating-point simulation, camera and rasterizer.
