# terrain_forge

Procedural generation of dungeons, caves and maps on tile grids, written
in Verus: the library's functions carry contracts that the verifier
proves. The generator draws from the ChaCha8 stream fixed by its seed:
an `Rng` is a seed and a word position, each draw is named as a function
of the two, and the generators' contracts say which draw decides what.
Every generator is proved deterministic: the same configuration, seed and
grid give the same result (the `law_*_deterministic` proof functions and
`AlgorithmSpec::law_generate_deterministic`).

- `src/` — the verified library: the grid, the generators
  (`structures/`: BSP, rooms, maze, cellular automata, drunkard walk, DLA,
  Voronoi, WFC, percolation, agents, prefabs, spanning forests), the
  effects (morphology, filters, transforms, connectivity, distance maps),
  region extraction and its text pictures, pipeline parameters and
  pipeline steps, generators and effects chosen by name with parameters,
  and the seeded random generator. Chances are integers in units of `2^-53`
  (`CHANCE_ONE` is certainty).
- `tests/` — tests of the library on concrete values.
- `app/` — the parts that need floating point, JSON parameters or image
  files: noise functions, height-map generators, float-valued effects and
  distance fields, JSON parameters read into the library's parameter
  values, conditional pipelines and templates, and PNG/HTML output.
