# system_usage_analyzer

A terminal monitor for CPU, memory, processes and macOS battery power, whose
logic is a Verus library with proved contracts.

- `src/` is the verified library.
  - `domain/` holds processes, the process forest, battery measurements
    (exact integers: millivolts, milliamperes, microwatts, tenths of a
    kelvin, capacity fractions) and the repository traits.
  - `application/` builds the process forest (`process.rs`, with the cycle
    rule in `forest.rs`, sibling order in `sort_order.rs`, and independence
    from the snapshot's order in `input_order.rs`), throttles
    battery polling (`power.rs`) and samples and renders one monitor tick
    (`monitor.rs`).
  - `infrastructure/` turns raw battery readings into metrics, ranks the
    top processes, lays out the process tree and formats the text rows.
  - `config.rs` reads the command line; `text.rs` parses and prints numbers
    and makes names safe for a terminal.
- `app/` is the program: `main`, the `sysinfo` sampler, the macOS IOKit
  reader, the `crossterm` renderer and the error types with their messages.
  Floating-point display (percentages, volts, watts, degrees) happens there.
- `tests/` runs the library on concrete cases.
