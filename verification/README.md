# lbm

A D2Q9 lattice-Boltzmann simulation of flow past a cylinder, with its
data-movement core verified by Verus.

- `src/` is the verified library. `grid` holds the row-major cell layout,
  `barrier` the solid-cell mask (kept in a `bitvec::BitVec`) and the
  cylinder barrier and the barrier read from a BMP image (decoded with
  `image`), `stream` the in-place streaming of the eight
  moving populations, `bounce` the bounce-back from solid cells with its
  laws, and `lattice` the simulation state (private fields, read and replaced
  through methods that keep its size, barrier and parameters), its
  construction, the speed frame and the step bookkeeping. Cell values are a type parameter.
- `app/` is the program: the floating-point collision and initialisation
  steps, the timing and printing of steps, file reading and plotting.
- `tests/` runs the library on concrete lattices.
