# leakwatch

Two tools that look for memory that is never given back, with their logic verified by
[Verus](https://github.com/verus-lang/verus).

- **leakwatch** runs beside an application. It walks the tree of processes below a root,
  samples what each holds in the machine and on graphics devices, keeps the history by the
  script that a process runs, and flags a script whose memory floor keeps rising while its
  overall trend agrees.
- **pyleak** scans the Python files around a script for six patterns that commonly leak, and
  names the functions responsible in a self-contained page, on the terminal or as JSON.

## Layout

| path          | what it holds                                                            |
|---------------|--------------------------------------------------------------------------|
| `src/watch/`  | processes and their tree, devices, samples, histories, verdicts, alerts, the page and the log |
| `src/pyleak/` | file selection, spawn points, spans of functions and classes, the checks, the reports |
| `src/text.rs`, `src/tally.rs`, `src/order.rs` | strings as sequences of characters, counting, order |
| `src/clock.rs` | the time of day                                                         |
| `tests/`      | tests on concrete values                                                 |
| `app/`        | arguments, files, SQLite, NVML, the process list, floating point, JSON   |

Everything in `src/` is proved against its contract. What is believed of other crates stands
in `src/pyleak/pattern.rs` (regular expressions), `src/clock.rs` (the clock), and in the few
declarations that give a contract to a function of the standard library.

Trends are floating point and are computed in `app/`. The library works on integers that
order as these numbers do, and decides by them: which samples make the floor of a history,
what counts as a leak, and in which order verdicts are shown.
