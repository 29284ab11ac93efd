# sysfacts

Gathers facts about the host (kernel, CPU, memory, operating system, uptime,
network, mounts) from what the system exposes, and prints them as one JSON
object.

- `src/` is the verified library, written with Verus. Each parser takes the
  text that the system gives (`/proc/cpuinfo`, `/proc/meminfo`, `sw_vers`,
  `ifconfig`, the output of PowerShell scripts, ...) and is proved to return
  what a specification over sequences of characters says.
  - `text.rs`: the text primitives (`lines`, `trim`, `split_once`,
    `split_whitespace`, number parsing, ...) with their specifications.
  - `table.rs`: a map keyed by text, with a view as a `Map`.
  - `components/`: one module per group of facts, with the laws that hold of
    them as proof functions.
- `app/` reads files, runs commands, converts the facts to JSON (serde) and
  runs the components in parallel (rayon).
- `tests/` runs the library on concrete inputs.
