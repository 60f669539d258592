# chazelle

Triangulation of simple polygons, verified with Verus: the combinatorial core
of Chazelle's linear-time algorithm (up-phase hierarchy of canonical submaps,
fusion, conformality, granularity, down-phase, diagonals from the visibility
map), the plane-sweep monotone decomposition with the linear stack
triangulation of monotone pieces, and Seidel's randomized method with
monotone mountains.

Coordinates never enter the verified library. Every geometric question
(orientation, sweep order, ray hits, diagonal validity, heights) is asked of a
`geometry::PolygonGeometry` implementation, and every algorithm is verified
for whatever answers it gives: a triangulation that succeeds returns `n - 2`
triangles whose corners are distinct vertices of the polygon. Where the
winding answer is passed in (`triangulate_with_winding`), Chazelle's
algorithm and Seidel's are proved to succeed whenever it is not degenerate;
the sweep may also report an internal error, when the stack walk of a
monotone piece yields fewer triangles than the piece needs. Ear clipping cuts one ear of the
remaining cycle at a time, and its triangles cover each boundary edge of the
cycle once and each diagonal from both sides. The centroid tree of a submap
whose chords join all of its regions, as those of a submap in normal form do,
has every region as a leaf exactly once, and each of its internal nodes is a
chord between two distinct regions that splits the regions below the node
as evenly as any chord between two of them does (which, in a star of
regions, is still one against the rest).

Layout:

- `src/` — the verified library.
  - `lib.rs`: algorithm choice, orientation handling, the public entry points.
  - `monotone.rs`: diagonals, splitting a polygon along diagonals, ear
    clipping, triangulation from the visibility map.
  - `monotone_sweep.rs`: vertex classification, the sweep, monotone pieces.
  - `seidel.rs`: the xorshift generator, its shuffle, monotone mountains.
  - `submap.rs`, `fusion.rs`, `conformality.rs`, `up_phase.rs`,
    `down_phase.rs`: submaps in normal form and the two phases.
  - `sorting.rs`: the stable merge sort of vertices by the sweep order and of
    chords by height, over the polygon's comparison answers.
  - `oracles.rs`: arc cutting and the slab index of the ray-shooting oracle.
  - `c_api.rs`: C triangles and their bytes (through `zerocopy`), status codes
    and the argument checks of the C entry points.
- `app/` — plain Rust around the library: `f64` points and the geometric
  predicates, the ray-shooting oracle, the C ABI and dataset generators.
- `tests/` — end-to-end and unit tests; they answer the geometric questions
  with the same `f64` predicates.

Chords are built in the library from the polygon's ray hits, so every chord
that fusion or the down-phase adds starts at a vertex of the chains involved,
and every diagonal read off the visibility map joins the vertex a chord starts
from to an end of the edge it hits. A submap in normal form is already
conformal, so making it conformal again leaves its regions as they are.
