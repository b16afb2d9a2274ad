# orient_core

Toolkit for orienting a 3D-printable mesh (STL) and generating supports for it.
The combinatorial core is a Verus-verified library; the floating-point geometry
and the command line live in `app/`.

## Layout

- `src/` — the verified library.
  - `stl` reads an STL file held in memory (through `stl_io`) into triangle
    corners, coordinates kept as `f32` bit patterns.
  - `edges`, `adjacency`, `analysis` — edges, incidence lists, topology
    (Euler characteristic, genus, watertightness) and connected surfaces of an
    indexed mesh.
  - `repair`, `holes` — consistent winding by propagation, boundary-loop
    tracing and fan filling, repeated filling passes, triangle removal.
  - `flat`, `winding` — the same repairs on flat triangle soups: duplicate
    removal, boundary edges, hole loops, winding propagation and flips.
  - `hull` — the horizon step of the 3D convex hull.
  - `island`, `placement`, `types` — overhang islands, their connected
    components and edge pixels, support classes.
  - `raft` — Kruskal spanning tree, Bowyer-Watson cavity step and line list
    of the support raft.
  - `selection`, `decimate`, `rng` — diverse candidate selection, stride
    decimation and hull sampling, the xorshift generator.
- `tests/` — tests of the library.
- `app/` — the `orient` command line, floating-point geometry (hull, scoring,
  ranking, stability, rasterisation, ear clipping, triangulation predicates),
  and the indexed-mesh kernel; it calls the library for every combinatorial
  step.
