# Feature-history export to build123d

A verified library that writes the feature history of a solved CAD document as
a build123d program: a sketch with a circle in it, an extrude with a length, a
fillet with a radius. Every feature the program leaves out, other than a sketch,
has a note in a report.

Selections that the document stores only as native identities are recovered
from the solved body. The exterior loop of an extrude comes from a global
attribution of solved cylinders to profile loops, its holes from a test for
material, and the edge of a fillet from the carriers its blend face joins.

## Layout

- `src/scalar.rs`, `kernel.rs`: doubles as bit patterns, and the arithmetic an
  export is run with. Comparisons are verified on the patterns; rounded
  arithmetic and decimal notation are supplied by the caller, and every contract
  is stated over the function they compute.
- `src/text.rs`, `list.rs`: text, digits and stable order.
- `src/ir.rs`, `arena.rs`, `topo.rs`, `adjacency.rs`: the document, its
  identities and its solved topology.
- `src/frame.rs`, `vectors.rs`: sketch planes.
- `src/ring.rs`, `curve.rs`, `crossing.rs`, `arrangement.rs`, `nesting.rs`:
  profile loops, whether they cross, and how they nest.
- `src/meridian.rs`, `profile.rs`, `assign.rs`, `blend.rs`: the rules that
  recover selections.
- `src/plan.rs`, `settle.rs`, `identity.rs`: resolution of the timeline, and
  what becomes of each extrude.
- `src/program.rs`, `wording.rs`, `emit.rs`: the program and its report.
- `src/notes.rs`, `report.rs`, `bodies.rs`, `history.rs`: what both are sure to
  hold, and what of the document they do not depend on.
- `app/`: double-precision arithmetic for the library.
