# lc_client

The decisions of a space-flight client, verified with Verus: what its panels say, what a
pick or a radio aim comes to, how sign-in moves from step to step, which texture bakes are
outstanding, which graph draws a body, what a frame does with each craft's hull and with the
player's parts, and the surface-nets mesher that turns a cleaned sign
lattice into a closed, oriented, manifold mesh.

- `src/` is the library. Every public function states what it returns in `ensures`; the
  laws that relate several functions are public proof functions named `law_…`.
- `app/` is the part that is not verified: file and environment access, the browser, TOML
  parsing with serde, and everything done in floating point (sampling a distance field,
  placing mesh vertices, formatting measurements).
- `tests/` runs the library on concrete values.

The mesher is in `grid` (the sign lattice and its cleaning), `surface_nets` (the loops of
crossings in one cell) and `nets` (the mesh and its laws: closed, two quads per edge,
consistently oriented, one fan per vertex, and one mesh per lattice).
