# loopctl

The rules of an agent loop, with contracts that Verus proves: what the agent
remembers and forgets, what it records of its runs and learns from them, and
what happens to a tool call on its way to the tool and back.

## Layout

- `src/` is the library.
  - `memory/` holds the entries and how they are scored, merged and pruned, the
    stores and the file format, the records of runs and the ledger, the mining
    of lessons, and the vector index.
  - `middleware/` holds the layers around a tool call: permission, safety
    shield, deadline, memo of results, output limit, redaction, suggestions for
    unknown tools, and verification of writes.
  - `observability/` holds the events and the lines that the console shows.
  - `message.rs` holds messages and tool results.
  - `text.rs`, `json.rs`, `hashing.rs`, `ids.rs`, `ordering.rs`, `numeric.rs`,
    `single.rs`, `double.rs` and `assoc.rs` hold what the others are built from.
- `app/` is the host: floating point, JSON, files, threads and asynchronous
  work. It performs what the library asks for and hands back what came of it.
- `tests/` runs the library.

## How to read the contracts

Instants are nanoseconds since the Unix epoch, durations are nanoseconds, and
identifiers are 128-bit numbers. Numbers with a fraction are held by their bits:
the library compares, orders and clamps them, and a host computes them behind a
trait. Work that only a host can do is a step of a state machine: the library
names the step, the host performs it, and the library decides what follows.
