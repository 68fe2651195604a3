# napkin_math

Daily benchmark measurements on real hardware: memory, system calls, hashing,
sorting, compression, serialization, SSD and network, each row described by a
`.toml` file under `benchmarks/` and appended to a CSV file.

The library (`src/`) holds the decisions, verified with Verus:

- `benchmarks::manifest` — rows from the manifest files, checked against the
  directory they live in and the registered ids, ordered by section and id,
  filtered, grouped into sections, and requests resolved to ids.
- `benchmarks::{compression, hash, memory, sort, ssd, readme}` — the work each
  benchmark times: its input, one call of the work, and the plan of which
  README benchmarks run.
- `cli::daily`, `cli::latency`, `cli::readme`, `cli::cpu` — the command lines of
  the front ends, which rows a run covers, the latency sampler's settings and
  pointer-chasing probe, and the CPU name that labels a run.
- `text` — the character-level operations the above are stated over.

`app/` is the program around it: the timing harness, threads, sockets, files,
system calls and everything that computes in floating point. Its first
argument picks the tool: `latency`, `readme`, `memory`, `verify-memory`, or
otherwise the daily runner (`list`, `run`, or no argument for the nightly run).
