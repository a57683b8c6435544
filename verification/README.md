# wave_sim

A one-dimensional finite-difference wave simulation, split in two.

- `src/` is the verified library:
  - `profile`: the square-pulse initial state;
  - `scheme`: one explicit upwind time step with its boundary rule, a whole
    run of the scheme, and the laws proved of runs (flat states stay flat,
    runs under one rule agree, pure transport rotates the grid and comes back
    after as many steps as there are cells);
  - `frames`: the zero-padded file names of the drawn frames, with the proof
    that distinct frames get distinct names.
- `app/` is the program: option parsing, the floating-point cell rule, the
  symbolic Burgers' initial state, drawing the frames and calling ffmpeg.
  Its subcommands are `lesson1`, `lesson2` and `lesson4`.
