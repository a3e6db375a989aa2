# mold-generator

A mold generator for STL-derived parts. It builds padded two-part molds and thin
shell molds around a solid, cuts them into printable sections, keys neighbouring
sections together, and writes the pieces as STL files and 3MF assemblies.

## Layout

- `src/` is the verified library. It holds the discrete logic of the generator,
  each function with a Verus contract:
  - `cli`: the command line, its complaints and the numbered output paths;
  - `xml`, `decimal`, `three_mf`: escaping, number rendering and the exact text of
    3MF package parts;
  - `mesh`, `loft_closure`: triangle topology of lofted solids and registration
    diamonds, with proofs that every edge is shared by an oppositely wound triangle;
  - `shell`, `partition`, `distribution`, `mold`: segmentation settings, the search
    for a printable partition, rib zigzags, fixture counts and section keying;
  - `wing`, `artifacts`: airfoil codes, wing presets and the names of generated
    artifacts, with proofs that distinct parts get distinct names.
- `app/` is the program around the library: floating-point geometry, the
  Manifold-backed solid kernel, STL and ZIP file output, and `main`.
- `tests/` exercises the library on concrete values.

## Not included

The wing-mold workflow that turns a wing into printable shell tiles is not part
of this crate: segment join flanges, flange fasteners, panel rivets, surface
frames, print-tile planning and the sample programs. What stands here of it is
its discrete vocabulary in `src/wing.rs` and `src/artifacts.rs` (airfoil codes,
presets, artifact names, mating checks, assembly object names), which nothing in
`app/` calls yet, and the preset wing program in `app/test_models.rs`, which the
program in `app/main.rs` does not expose.
