# evo2

A hex-grid electrical-circuit life simulator whose exact integer core is
specified and proved correct.

* `src/` — the verified library: axial hex geometry and a sparse hex grid
  (`hex_grid`), atom kinds and logic gates (`atom`), the xorshift128+
  generator (`rng`), integer tuning knobs and mutation odds (`config`), the
  genome operators — growth sites, growth, seeding, mutation, removal and
  connectivity pruning (`genome`, with the `fxhash` tables it uses behind
  trusted wrappers in `fx`), the bond table of a molecule (`molecule`), and
  the integer rules of a world step: bite claims, deaths, births under the
  population cap, food under the food cap (`world`).
* `app/` — the Godot extension around it: single-precision physics of
  molecules and the world (distances, speeds, energies, which it hands to
  `world` as plain flags), the float functions that the genome operators
  take as `FloatDraws` (grammar-weighted kinds, parameters), rendering.
* `tests/` — tests of the library on concrete values.
