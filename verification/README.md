# cadkernel

The exact, verified core of a planar CAD kernel, written in Verus.

- `src/geom2d.rs` — what the kernel reads of a plane curve (`CurveShape`,
  `Extent`) and the generic line and polyline types.
- `src/space/` — a curve on its plane (`planar`), the union and winding kinds,
  the knot layout of a helix's cubic approximation, and the bookkeeping of
  NURBS curves and surfaces (counts, vertex deletion, reversal, periodic
  control nets).
- `src/brep/` — extrusion profile pieces and polyline reversal
  (`presspull`), chaining loose boundary pieces into closed loops (`chain`),
  and parameter-space bookkeeping (`pcurve`).
- `app/` — the floating-point side: measurements and constructions with real
  coordinates, which hand their decisions to the library.

Coordinates are never computed with inside the library. Where they are only
carried they are type parameters; where a geometric decision is needed, the
caller measures and passes the answer (an `EndContacts` table, a `full_turn`
flag, a `clamped` flag, a mirroring or negating closure).
