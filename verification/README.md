# tile_fd_pricer

A deterministic finite-difference option pricer, split in two:

- `src/` — the verified library (Verus). It holds the discrete rules the
  pricer rests on, each with a contract:
  - `fd`: the spot-centred grid size (`grid_intervals`), the number of time
    steps per scheme (`time_steps`), and the three-point stencil sweep
    (`explicit_step`) whose every interior output is the kernel applied to
    the node and its two neighbours;
  - `heston`: the 2D nine-point sweep (`nine_point_step`), the Dirichlet /
    Neumann boundaries (`set_boundaries`) and the step counts of the explicit
    and ADI schemes;
  - `batch`: the stable step count of a book (`stable_steps`), packing a book
    into quads of four and back (`price_by_quads`), the node-major sweep of a
    quad (`quad_sweep`, `node_at`, `set_node`), and cutting a book into
    quad-aligned thread slices (`parallel_slices`), with proofs that the slices
    partition the book, leave every quad as a single pass would form it, and
    so give the same prices laid end to end, and that a lane-wise quad step is
    the scalar step run on each lane;
  - `black_scholes`: which exercise styles have a closed form.
- `app/` — the floating-point pricer (Black–Scholes formulas, Crank–Nicolson
  and explicit solves, the SIMD batch kernels, Heston): ordinary Rust built on
  the library.
- `tests/` — tests of the library on concrete values.
