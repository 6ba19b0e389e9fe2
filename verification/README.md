# truck_shapeops

Combinatorial core of parametric-domain boolean operations on B-rep solids,
verified with Verus.

- `src/dispatch.rs`: which surface-surface intersection method a pair of
  surfaces gets, and how the status of an intersection curve carries over to
  the two faces it lies on.
- `src/chains.rs`: greedy linking of intersection points to their nearest
  eligible successor, and the walk of the links into chains; with the laws
  that linking keeps links consistent, is idempotent, and yields well-formed,
  disjoint chains whose consecutive points come from different iso-lines.
- `src/regions.rs`: assembly of the regions of a split face from summaries
  of its loops: outlines sorted by area, each hole given to the first outline
  that contains it.
- `app/`: the floating-point geometry around the core (signed areas, winding
  numbers, Newton refinement, plane intersections), built on `truck-geometry`
  and `truck-meshalgo`.
- `tests/`: tests of the library on concrete values.
