# ferrite

A userspace RAM tester for Linux. It locks memory, runs test patterns on it, resolves
failures to physical addresses, and keeps track of which physical frames have been
tested over several runs.

- `src/` is the library: everything that decides or computes, with contracts that Verus
  proves. It touches no file and no memory of its own; what it needs from the machine
  comes in as plain values or through small traits (`Memory`, `Monitor`, `ChunkHost`,
  `FlagSource`, `PhysResolver`, `Units`).
- `app/` is the program: arguments, system calls, files, threads, and number formatting.
- `tests/` runs the library from outside.

## The library

| module | what it holds |
| --- | --- |
| `memory`, `buffer`, `ops`, `pattern` | what a test does to memory, access by access |
| `soundness` | sound memory passes every pattern; stuck bits and aliased addresses are found |
| `faults` | coupled cells and bits that do not turn are found |
| `failure`, `error_analysis` | failures, the budget for them, and what they have in common |
| `parallel` | memory in shares that are tested side by side |
| `allocation`, `setup`, `cli` | how much memory to lock, and what to say about it |
| `physmem` | frames, page maps and flags, coverage over runs, `/dev/mem`, the frame sieve |
| `edac`, `dimm` | error counters and memory modules |
| `events`, `ndjson`, `headless`, `log_bridge` | what is shown and streamed during a run |
| `runner`, `session`, `output`, `results` | the steps of a run and its results |
| `text`, `bytes`, `style`, `units`, `clock` | text, numbers, emphasis, points in time |

Public proof functions named `law_..` state what holds across functions.

A few functions call other crates (`rand_xoshiro`, `jiff`, `owo-colors`, `serde_json`) or
parts of std that have no specification yet. Each is wrapped in a function marked
`external_body` whose comment says what is taken on trust.
