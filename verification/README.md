# grand_pattern

Experiments on how "vibes" diffuse through a graph of rooms.

- `src/` is the verified library: the room topology (`topology`: ring, chain,
  star and mesh builders, undirected links without repeats), the xorshift
  input generator (`rng`), and the bookkeeping of the experiments
  (`tracking`: first tick at which a condition held, dissolved rooms).
- `app/main.rs` runs the five experiments. The vibe vectors and the gossip
  step are floating point and live there, on top of the library.
- `tests/` exercises the library on concrete values.
